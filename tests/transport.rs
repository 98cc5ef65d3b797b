use fountainflow::transport::{decode_frame, encode_frame, RateLimiter, TransportError, HEADER_SIZE};

#[test]
fn frame_layout() {
    let f = encode_frame(0x01020304, 10, 0xA0B0C0D0, &[9, 8, 7]);
    assert_eq!(f, vec![1, 2, 3, 4, 0, 0, 0, 10, 0xA0, 0xB0, 0xC0, 0xD0, 9, 8, 7]);
}

#[test]
fn frame_round_trip() {
    let payload: Vec<u8> = (0..100u8).collect();
    let f = encode_frame(u32::MAX, 79, 12345, &payload);
    let back = decode_frame(&f).unwrap();
    assert_eq!(back.esi, u32::MAX);
    assert_eq!(back.k, 79);
    assert_eq!(back.seq, 12345);
    assert_eq!(back.payload, payload);
    let empty = decode_frame(&encode_frame(1, 2, 3, &[])).unwrap();
    assert!(empty.payload.is_empty());
}

#[test]
fn short_frame_is_malformed() {
    assert!(matches!(decode_frame(&[0u8; 11]), Err(TransportError::MalformedFrame)));
    assert!(decode_frame(&[0u8; HEADER_SIZE]).is_ok());
}

#[test]
fn rate_one_megabit() {
    let mut limiter = RateLimiter::new(1);
    assert_eq!(limiter.bytes_per_second, 131072);
    // the first datagram leaves at once; one megabit later the next may go
    assert_eq!(limiter.wait(131072, 0), 0);
    assert_eq!(limiter.next_free, 1_000_000);
    assert_eq!(limiter.wait(1, 0), 1_000_000);
}

#[test]
fn rate_one_mebibyte_at_one_megabit() {
    // 1 MiB at 1024 * 1024 / 8 bytes per second takes eight seconds
    let mut limiter = RateLimiter::new(1);
    let mut now = 0u64;
    for _ in 0..1024 {
        now += limiter.wait(1024, now);
    }
    // each 1024-byte datagram takes 7812.5 us, rounded up to 7813
    assert_eq!(limiter.next_free, 1024 * 7813);
    assert_eq!(now, 1023 * 7813);
}

#[test]
fn rate_window_never_exceeded() {
    // 8 Mbps = 1 MiB per second; datagrams of 70000 bytes sent as fast as allowed
    let mut limiter = RateLimiter::new(8);
    let mut now = 0u64;
    let mut departures: Vec<u64> = Vec::new();
    for _ in 0..100 {
        now += limiter.wait(70_000, now);
        departures.push(now);
    }
    for (a, &start) in departures.iter().enumerate() {
        let in_window = departures[a..].iter().filter(|&&t| t < start + 1_000_000).count() as u64;
        assert!(in_window * 70_000 <= 1_048_576 + 70_000);
    }
}

#[test]
fn rate_zero_is_unlimited() {
    let mut limiter = RateLimiter::new(0);
    assert_eq!(limiter.wait(u64::MAX, 5), 0);
}
