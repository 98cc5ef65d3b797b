use fountainflow::distribution::{triple, DegreeGenerator};
use fountainflow::fountain::{Block, Encoder, FountainError};

#[test]
fn fountain_test_encoder_creation() {
    let data = vec![1, 2, 3, 4, 5, 6, 7, 8];
    let encoder = Encoder::new(&data, 2).unwrap();
    assert_eq!(encoder.source.len(), 4);
    assert_eq!(encoder.symbol_size, 2);
    assert_eq!(encoder.sequence, 0);
}

#[test]
fn test_invalid_parameters() {
    let data = vec![1, 2, 3, 4];
    assert!(matches!(Encoder::new(&data, 0), Err(FountainError::InvalidBlockSize(0))));
    assert!(matches!(Encoder::new(&data, 5), Err(FountainError::InvalidBlockSize(5))));

    let data = vec![1, 2, 3];
    assert!(matches!(Encoder::new(&data, 1), Err(FountainError::InvalidBlockSize(1))));

    let data = vec![0; 1024];
    assert!(matches!(Encoder::new(&data, 2), Err(FountainError::InvalidBlockSize(2))));
}

#[test]
fn test_block_generation() {
    let data = vec![1, 2, 3, 4, 5, 6, 7, 8];
    let mut encoder = Encoder::new(&data, 2).unwrap();

    let block = encoder.next_block().unwrap();
    assert_eq!(block.data().len(), 2);
    assert!(block.degree() >= 1 && block.degree() <= 40);
    assert_eq!(block.seed(), 0);

    let block2 = encoder.next_block().unwrap();
    assert_eq!(block2.seed(), 1);
}

#[test]
fn test_deterministic_generation() {
    let data = vec![1, 2, 3, 4, 5, 6, 7, 8];
    let mut encoder1 = Encoder::new(&data, 2).unwrap();
    let mut encoder2 = Encoder::new(&data, 2).unwrap();

    let block1 = encoder1.next_block().unwrap();
    let block2 = encoder2.next_block().unwrap();

    assert_eq!(block1.data(), block2.data());
    assert_eq!(block1.degree(), block2.degree());
    assert_eq!(block1.seed(), block2.seed());
}

#[test]
fn encoder_is_systematic() {
    let data: Vec<u8> = (0u8..16).collect();
    let mut encoder = Encoder::new(&data, 4).unwrap();
    for x in 0..4u32 {
        let block = encoder.next_block().unwrap();
        assert_eq!(block.seed(), x);
        assert_eq!(block.data(), &data[(x as usize) * 4..(x as usize) * 4 + 4]);
        assert_eq!(encoder.source_symbol(x as usize), Some(&data[(x as usize) * 4..(x as usize) * 4 + 4]));
    }
    assert_eq!(encoder.source_symbol(4), None);
    assert_eq!(encoder.source_symbols_count(), 4);
    assert_eq!(encoder.symbol_size(), 4);
}

#[test]
fn encoder_pads_last_symbol() {
    let data: Vec<u8> = (1u8..=15).collect();
    let encoder = Encoder::new(&data, 4).unwrap();
    assert_eq!(encoder.encode_symbol(3), vec![13, 14, 15, 0]);
}

#[test]
fn encoder_over_every_k() {
    // with the published J(K), A(K) has a unique solution for these K up to 79
    let solvable_below_80 = [4usize, 5, 9, 10, 11, 13, 18, 22, 29, 41, 54, 59, 76];
    for k in 4usize..=256 {
        let data: Vec<u8> = (0..k).map(|i| (i * 7 + 3) as u8).collect();
        let r = Encoder::new(&data, 1);
        if k >= 80 || solvable_below_80.contains(&k) {
            let encoder = r.unwrap();
            assert_eq!(encoder.source_symbols_count(), k);
            assert_eq!(encoder.encode_symbol(0), vec![3]);
        } else {
            assert!(matches!(r, Err(FountainError::PreCodeSingular)), "k = {}", k);
        }
    }
}

#[test]
fn encoder_singular_precode() {
    let data = vec![7u8; 6];
    assert!(matches!(Encoder::new(&data, 1), Err(FountainError::PreCodeSingular)));
}

#[test]
fn test_triple_generation() {
    let gen = DegreeGenerator::new(100);
    let triple = gen.generate_triple(100, 0);
    assert!(triple.is_some());
    let (d, a, b) = triple.unwrap();
    assert!(d >= 1 && d <= 40);
    assert!(a >= 1 && a < 100);
    assert!(b < 100);

    let triple1 = gen.generate_triple(100, 42).unwrap();
    let triple2 = gen.generate_triple(100, 42).unwrap();
    assert_eq!(triple1, triple2);

    assert!(gen.generate_triple(3, 0).is_none());
    assert!(gen.generate_triple(257, 0).is_none());
}

#[test]
fn test_triple_rfc_values() {
    let gen = DegreeGenerator::new(100);
    let triple = gen.generate_triple(100, 2);
    assert!(triple.is_some());
    let (d, a, b) = triple.unwrap();
    assert!(d >= 1 && d <= 40);
    assert!(a >= 1 && a < 100);
    assert!(b < 100);
    let triple2 = gen.generate_triple(100, 2).unwrap();
    assert_eq!((d, a, b), triple2);
}

#[test]
fn triple_golden_value() {
    assert_eq!(triple(10, 0), Some((2, 2, 9)));
}

#[test]
fn triple_ranges_and_determinism() {
    for k in [4usize, 10, 50, 79] {
        for x in [0u32, 1, 2, 42, 65520, 1_000_000, u32::MAX] {
            let (d, a, b) = triple(k, x).unwrap();
            assert!(d >= 1 && d <= 40 && d <= k);
            assert!(a >= 1 && (a as usize) < k);
            assert!((b as usize) < k);
            assert_eq!(triple(k, x), Some((d, a, b)));
        }
    }
    assert_eq!(triple(3, 0), None);
    assert_eq!(triple(257, 0), None);
    assert!(triple(80, 7).is_some());
    let gen = DegreeGenerator::new(10);
    assert_eq!(gen.generate_triple(10, 0), triple(10, 0));
}

#[test]
fn block_accessors() {
    let b = Block::new(vec![9, 8], 5, 3);
    assert_eq!(b.data(), &[9, 8]);
    assert_eq!(b.seed(), 5);
    assert_eq!(b.degree(), 3);
}

#[test]
fn identifiers_run_out() {
    let data: Vec<u8> = (0u8..16).collect();
    let mut encoder = Encoder::new(&data, 4).unwrap();
    encoder.sequence = u32::MAX as u64;
    let last = encoder.next_block().unwrap();
    assert_eq!(last.seed(), u32::MAX);
    assert!(matches!(encoder.next_block(), Err(FountainError::SequenceExhausted)));
    assert_eq!(encoder.sequence, 1u64 << 32);
}
