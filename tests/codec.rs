use fountainflow::decoder::{Decoder, DecoderError};
use fountainflow::fountain::{Block, Encoder};
use fountainflow::session::{on_datagram, Session, SessionError, Step};
use fountainflow::transport::encode_frame;

/// Encodes `data` in symbols of `t` bytes, hands the decoder the symbols
/// for `esis` in that order, and returns what it decodes.
fn run(data: &[u8], t: usize, esis: &[u32]) -> Option<Vec<u8>> {
    let encoder = Encoder::new(data, t).unwrap();
    let k = encoder.source_symbols_count();
    let mut decoder = Decoder::new(k, t).unwrap();
    for &x in esis {
        let payload = encoder.encode_symbol(x);
        decoder.add_block(Block::new(payload, x, 0), x).unwrap();
    }
    match decoder.try_decode() {
        Ok(true) => decoder.get_decoded_data(),
        _ => None,
    }
}

/// A fixed-seed generator of test bytes.
fn lcg_bytes(seed: u64, n: usize) -> Vec<u8> {
    let mut s = seed;
    let mut out = Vec::with_capacity(n);
    for _ in 0..n {
        s = s.wrapping_mul(6364136223846793005).wrapping_add(1442695040888963407);
        out.push((s >> 33) as u8);
    }
    out
}

#[test]
fn four_symbols_in_order() {
    let d: Vec<u8> = (0u8..16).collect();
    assert_eq!(run(&d, 4, &[0, 1, 2, 3]), Some(d.clone()));
}

#[test]
fn four_symbols_reversed() {
    let d: Vec<u8> = (0u8..16).collect();
    assert_eq!(run(&d, 4, &[3, 2, 1, 0]), Some(d.clone()));
}

#[test]
fn ten_symbols_with_losses() {
    let d = lcg_bytes(2024, 80);
    assert_eq!(run(&d, 8, &[0, 1, 2, 3, 4, 5, 6, 7, 12, 13, 14]), Some(d.clone()));
}

#[test]
fn repair_symbols_only() {
    let d = lcg_bytes(7, 40);
    let esis: Vec<u32> = (100..120).collect();
    assert_eq!(run(&d, 4, &esis), Some(d.clone()));
}

#[test]
fn small_overhead_decodes() {
    // random identifier sets of size K + 10 from a fixed seed
    for k in [4usize, 10] {
        let t = 3;
        let d = lcg_bytes(k as u64, k * t);
        let mut s: u64 = 99;
        for _ in 0..20 {
            let mut esis: Vec<u32> = Vec::new();
            while esis.len() < k + 10 {
                s = s.wrapping_mul(6364136223846793005).wrapping_add(1442695040888963407);
                let x = ((s >> 33) % 500) as u32;
                if !esis.contains(&x) {
                    esis.push(x);
                }
            }
            assert_eq!(run(&d, t, &esis), Some(d.clone()));
        }
    }
}

#[test]
fn too_few_symbols_need_more() {
    let d: Vec<u8> = (0u8..16).collect();
    let encoder = Encoder::new(&d, 4).unwrap();
    let mut decoder = Decoder::new(4, 4).unwrap();
    for x in 0..3u32 {
        decoder.add_block(Block::new(encoder.encode_symbol(x), x, 0), x).unwrap();
    }
    assert!(matches!(decoder.try_decode(), Ok(false)));
    assert_eq!(decoder.get_decoded_data(), None);
}

#[test]
fn duplicate_symbol_is_ignored() {
    let d: Vec<u8> = (0u8..16).collect();
    let encoder = Encoder::new(&d, 4).unwrap();
    let mut decoder = Decoder::new(4, 4).unwrap();
    decoder.add_block(Block::new(encoder.encode_symbol(2), 2, 0), 2).unwrap();
    decoder.add_block(Block::new(encoder.encode_symbol(2), 2, 0), 2).unwrap();
    decoder.add_block(Block::new(vec![0, 0, 0, 0], 2, 0), 2).unwrap();
    assert_eq!(decoder.esis, vec![2]);
    assert_eq!(decoder.payloads, vec![encoder.encode_symbol(2)]);
}

#[test]
fn decoder_rejects_bad_input() {
    assert!(matches!(Decoder::new(3, 8), Err(DecoderError::InvalidBlockCount(3))));
    assert!(matches!(Decoder::new(257, 8), Err(DecoderError::InvalidBlockCount(257))));
    assert!(matches!(Decoder::new(10, 0), Err(DecoderError::InvalidBlockSize(0))));
    let mut decoder = Decoder::new(10, 8).unwrap();
    assert!(matches!(
        decoder.add_block(Block::new(vec![1, 2, 3, 4], 42, 3), 0),
        Err(DecoderError::InvalidBlockSize(4))
    ));
}

#[test]
fn unsolvable_after_margin() {
    // identifiers that differ by a multiple of Q = 65521 share one triple,
    // so they add one equation however many of them arrive
    let d: Vec<u8> = (0u8..16).collect();
    let encoder = Encoder::new(&d, 4).unwrap();
    let mut decoder = Decoder::new(4, 4).unwrap();
    for i in 0..23u32 {
        let x = 5 + i * 65521;
        decoder.add_block(Block::new(encoder.encode_symbol(x), x, 0), x).unwrap();
    }
    assert!(matches!(decoder.try_decode(), Ok(false)));
    let x = 5 + 23 * 65521;
    decoder.add_block(Block::new(encoder.encode_symbol(x), x, 0), x).unwrap();
    assert!(matches!(decoder.try_decode(), Err(DecoderError::SystemNotSolvable)));
}

#[test]
fn test_decoder_creation() {
    let decoder = Decoder::new(100, 1000);
    assert!(decoder.is_ok());
    let decoder = decoder.unwrap();
    assert_eq!(decoder.params.k, 100);
    assert_eq!(decoder.block_size, 1000);

    // L = K + S + H with S = 17 and H = 9 for K = 100
    assert_eq!(decoder.params.l, 126);
    assert_eq!(decoder.precode.len(), 17 + 9);
    assert!(decoder.precode.iter().all(|row| row.len() == 126));

    let decoder = Decoder::new(100, 0);
    assert!(matches!(decoder, Err(DecoderError::InvalidBlockSize(0))));

    let decoder = Decoder::new(3, 1000);
    assert!(matches!(decoder, Err(DecoderError::InvalidBlockCount(3))));
    let decoder = Decoder::new(257, 1000);
    assert!(matches!(decoder, Err(DecoderError::InvalidBlockCount(257))));
}

#[test]
fn test_invalid_block_size() {
    let mut decoder = Decoder::new(100, 8).unwrap();
    let block = Block::new(vec![1, 2, 3, 4], 42, 3);
    assert!(matches!(decoder.add_block(block, 0), Err(DecoderError::InvalidBlockSize(4))));
}

#[test]
fn hundred_symbols_round_trip() {
    let d = lcg_bytes(100, 200);
    let esis: Vec<u32> = (0..100).rev().collect();
    assert_eq!(run(&d, 2, &esis), Some(d.clone()));
}

#[test]
fn session_receives_a_transfer() {
    let data = lcg_bytes(5, 37);
    let encoder = Encoder::new(&data, 4).unwrap();
    let k = encoder.source_symbols_count() as u32;
    let mut session: Option<Session> = None;
    // malformed or empty before anything: nothing starts
    assert!(matches!(on_datagram(&mut session, &[1, 2, 3], 37), Ok(Step::Dropped(SessionError::MalformedFrame))));
    let empty = encode_frame(0, k, 0, &[]);
    assert!(matches!(on_datagram(&mut session, &empty, 37), Ok(Step::Dropped(SessionError::InvalidPayloadSize))));
    assert!(session.is_none());
    let mut decoded = None;
    for (seq, x) in (0..k).rev().enumerate() {
        // the sequence field numbers the datagrams; it does not split sessions
        let frame = encode_frame(x, k, seq as u32, &encoder.encode_symbol(x));
        match on_datagram(&mut session, &frame, 37).unwrap() {
            Step::Decoded(v) => decoded = Some(v),
            Step::Accepted => {}
            Step::Dropped(e) => panic!("dropped {:?}", e),
        }
        // a frame of another block size or K is dropped and counted
        let other = encode_frame(x, k + 1, 0, &encoder.encode_symbol(x));
        assert!(matches!(on_datagram(&mut session, &other, 37), Ok(Step::Dropped(SessionError::SessionMismatch))));
        let short = encode_frame(x, k, 0, &[1, 2]);
        assert!(matches!(on_datagram(&mut session, &short, 37), Ok(Step::Dropped(SessionError::InvalidPayloadSize))));
    }
    assert_eq!(decoded, Some(data));
    let s = session.unwrap();
    assert_eq!(s.k, k);
    assert_eq!(s.t, 4);
    assert_eq!(s.length, 37);
    assert_eq!(s.dropped, 2 * k as u64);
}

#[test]
fn session_keeps_whole_block_without_length() {
    let data: Vec<u8> = (0u8..16).collect();
    let encoder = Encoder::new(&data, 4).unwrap();
    let mut session: Option<Session> = None;
    let mut last = None;
    for x in 0..4u32 {
        let frame = encode_frame(x, 4, x, &encoder.encode_symbol(x));
        last = Some(on_datagram(&mut session, &frame, u64::MAX).unwrap());
    }
    assert!(matches!(last, Some(Step::Decoded(ref v)) if *v == data));
}

#[test]
fn session_refuses_bad_first_frame() {
    let mut session: Option<Session> = None;
    let frame = encode_frame(0, 3, 10, &[1, 2, 3, 4]);
    assert!(matches!(on_datagram(&mut session, &frame, 4), Err(DecoderError::InvalidBlockCount(3))));
    assert!(session.is_none());
}
