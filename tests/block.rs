use fountainflow::block::{BlockError, BlockParameters, SourceBlock};

#[test]
fn test_block_parameters() {
    let params = BlockParameters::new(1_000_000, 8192, 1024, 4, 10);

    assert!(params.is_ok());
    let params = params.unwrap();
    assert_eq!(params.symbol_size % params.alignment, 0);
}

#[test]
fn block_parameters_values() {
    // G = min(ceil(1024 * 1024 / 1e6) = 2, 256, 10) = 2; T = (1024 / 8) * 4 = 512;
    // Kt = ceil(1e6 / 512) = 1954; Z = ceil(1954 / 256) = 8;
    // N = min(ceil(ceil(1954 / 8) * 512 / 8192), 128) = min(ceil(245 * 512 / 8192), 128) = 16
    let p = BlockParameters::new(1_000_000, 8192, 1024, 4, 10).unwrap();
    assert_eq!(p.symbol_size, 512);
    assert_eq!(p.num_blocks, 8);
    assert_eq!(p.num_subblocks, 16);
    assert_eq!(p.source_symbol_count(), 1954);
    assert_eq!(p.transfer_length, 1_000_000);
    assert_eq!(p.alignment, 4);
}

#[test]
fn block_parameters_are_deterministic() {
    let a = BlockParameters::new(123_457, 4096, 1400, 8, 4).unwrap();
    let b = BlockParameters::new(123_457, 4096, 1400, 8, 4).unwrap();
    assert_eq!(
        (a.symbol_size, a.num_blocks, a.num_subblocks),
        (b.symbol_size, b.num_blocks, b.num_subblocks)
    );
}

#[test]
fn block_parameters_rejected() {
    assert!(matches!(BlockParameters::new(1000, 8192, 1024, 0, 10), Err(BlockError::InvalidParameters)));
    assert!(matches!(BlockParameters::new(1000, 8192, 1022, 4, 10), Err(BlockError::InvalidParameters)));
    assert!(matches!(BlockParameters::new(0, 8192, 1024, 4, 10), Err(BlockError::InvalidParameters)));
    assert!(matches!(BlockParameters::new(1000, 8192, 1024, 4, 0), Err(BlockError::InvalidParameters)));
}

#[test]
fn test_source_block_creation() {
    let params = BlockParameters {
        transfer_length: 1000,
        alignment: 4,
        symbol_size: 100,
        num_blocks: 1,
        num_subblocks: 2,
    };

    let data = vec![1u8; 250];
    let block = SourceBlock::new(&data, 0, &params);

    assert!(block.is_ok());
    let block = block.unwrap();
    assert_eq!(block.sub_blocks.len(), 2);
    assert!(block.sub_blocks[0].len() > 0);
}

#[test]
fn source_block_pads_last_symbol() {
    let params = BlockParameters {
        transfer_length: 10,
        alignment: 2,
        symbol_size: 4,
        num_blocks: 1,
        num_subblocks: 2,
    };
    let data: Vec<u8> = (1..=10).collect();
    let block = SourceBlock::new(&data, 7, &params).unwrap();
    assert_eq!(block.number, 7);
    assert_eq!(block.symbols, vec![vec![1, 2, 3, 4], vec![5, 6, 7, 8], vec![9, 10, 0, 0]]);
    assert_eq!(block.sub_symbol(2, 0), Some(&[9u8, 10][..]));
    assert_eq!(block.sub_symbol(1, 1), Some(&[7u8, 8][..]));
    let zero = BlockParameters { num_subblocks: 0, ..params };
    assert!(matches!(SourceBlock::new(&data, 0, &zero), Err(BlockError::InvalidParameters)));
}

#[test]
fn test_sub_symbol_access() {
    let params = BlockParameters {
        transfer_length: 1000,
        alignment: 4,
        symbol_size: 100,
        num_blocks: 1,
        num_subblocks: 2,
    };

    let data = vec![1u8; 250];
    let block = SourceBlock::new(&data, 0, &params).unwrap();

    assert!(block.sub_symbol(0, 0).is_some());
    assert!(block.sub_symbol(0, 2).is_none());
}
