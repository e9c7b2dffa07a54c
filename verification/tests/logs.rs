use oracle::logs::{millis_from_clock, LogRing, Stream, CAPACITY};

#[test]
fn sequence_numbers_keep_climbing_past_the_capacity() {
    let mut ring = LogRing::new();
    for i in 0..(CAPACITY + 10) {
        ring.push(Stream::Stdout, format!("line {i}"));
    }

    assert_eq!(ring.len(), CAPACITY);

    let all = ring.all();
    // The first ten lines were evicted, so the oldest survivor is line 10.
    assert_eq!(all.first().unwrap().text, "line 10");
    assert_eq!(all.first().unwrap().seq, 10);
    assert_eq!(all.last().unwrap().seq, (CAPACITY + 9) as u64);
}

#[test]
fn since_returns_only_newer_lines() {
    let mut ring = LogRing::new();
    for i in 0..5 {
        ring.push(Stream::Stdout, format!("line {i}"));
    }

    let tail = ring.since(3);
    assert_eq!(tail.len(), 2);
    assert_eq!(tail[0].text, "line 3");
    assert_eq!(tail[1].text, "line 4");
}

#[test]
fn since_beyond_the_end_returns_nothing() {
    let mut ring = LogRing::new();
    ring.push(Stream::Stdout, "only".to_string());

    assert!(ring.since(99).is_empty());
}

#[test]
fn clearing_keeps_the_sequence_running() {
    let mut ring = LogRing::new();
    ring.push(Stream::Stdout, "before".to_string());
    ring.clear();
    let after = ring.push(Stream::System, "after".to_string());

    // Sequence numbers must never repeat, or the frontend would drop the new line as
    // something it had already seen.
    assert_eq!(after.seq, 1);
    assert_eq!(ring.len(), 1);
}

#[test]
fn streams_are_preserved() {
    let mut ring = LogRing::new();
    ring.push(Stream::Stdout, "out".to_string());
    ring.push(Stream::Stderr, "err".to_string());
    ring.push(Stream::System, "sys".to_string());

    let all = ring.all();
    assert_eq!(all[0].stream, Stream::Stdout);
    assert_eq!(all[1].stream, Stream::Stderr);
    assert_eq!(all[2].stream, Stream::System);
}

#[test]
fn since_the_oldest_or_earlier_returns_everything_held() {
    let mut ring = LogRing::new();
    for i in 0..(CAPACITY + 3) {
        ring.push(Stream::Stdout, format!("{i}"));
    }
    assert_eq!(ring.since(0).len(), CAPACITY);
    assert_eq!(ring.since(3).len(), CAPACITY);
    assert_eq!(ring.since(4).len(), CAPACITY - 1);
    assert_eq!(ring.next_seq(), (CAPACITY + 3) as u64);
    assert!(ring.since(ring.next_seq()).is_empty());
}

#[test]
fn a_ring_holds_the_newest_pushes_since_its_last_clear() {
    let mut ring = LogRing::new();
    for i in 0..5u32 {
        ring.push(Stream::Stdout, format!("old {i}"));
    }
    ring.clear();
    for i in 0..1003u32 {
        ring.push(Stream::Stderr, format!("line {i}"));
    }
    let all = ring.all();
    assert_eq!(all.len(), 1000);
    assert_eq!(all[0].text, "line 3");
    assert_eq!(all[0].seq, 8);
    assert_eq!(all.last().unwrap().seq, 1007);
    assert_eq!(ring.next_seq(), 1008);
    assert!(all.windows(2).all(|w| w[1].seq == w[0].seq + 1));
}

#[test]
fn a_clock_reading_is_rounded_towards_the_past() {
    assert_eq!(millis_from_clock(Ok((1, 500_000_000))), 1500);
    assert_eq!(millis_from_clock(Ok((0, 999_999))), 0);
    assert_eq!(millis_from_clock(Err((0, 1))), -1);
    assert_eq!(millis_from_clock(Err((1, 0))), -1000);
    assert_eq!(millis_from_clock(Err((0, 2_000_000))), -2);
    assert_eq!(millis_from_clock(Ok((u64::MAX, 0))), i64::MAX);
    assert_eq!(millis_from_clock(Err((u64::MAX, 0))), i64::MIN);
}
