use jix::error::ErrorKind;
use jix::storage::block::{
    build_from_encoded_blocks, split_into_blocks, BlockLocation2, BlockTable, OwnedBlockTableBuilder,
};

#[test]
fn builder_records_each_block_where_it_was_appended() {
    let mut builder = OwnedBlockTableBuilder::start(3, 4);
    builder.write_compressed_block(2, &[9, 9, 9]).unwrap();
    builder.write_compressed_block(0, &[1, 2]).unwrap();
    builder.write_compressed_block(1, &[7]).unwrap();
    let table = builder.finalize().unwrap();
    assert_eq!(table.nblocks(), 3);
    assert_eq!(table.nitems(), 12);
    assert_eq!(table.block_size(), 4);
    assert_eq!(table.block_location(2), (0, 3));
    assert_eq!(table.block_location(0), (3, 2));
    assert_eq!(table.block_location(1), (5, 1));
    assert_eq!(table.block_bytes(0), &[1, 2]);
    assert_eq!(table.block_bytes(1), &[7]);
    assert_eq!(table.block_bytes(2), &[9, 9, 9]);
}

#[test]
fn blocks_are_stored_back_to_back_in_write_order() {
    let mut builder = OwnedBlockTableBuilder::start(4, 3);
    for i in 0..4u64 {
        let bytes: Vec<u8> = (0..=i as u8).collect();
        builder.write_compressed_block(i, &bytes).unwrap();
    }
    let table = builder.finalize().unwrap();
    let mut expected_offset = 0u64;
    for i in 0..table.nblocks() {
        let (offset, len) = table.block_location(i);
        assert_eq!(offset, expected_offset);
        assert_eq!(len as u64, i + 1);
        expected_offset += len as u64;
    }
}

#[test]
fn rewriting_a_block_points_it_at_the_new_bytes() {
    let mut builder = OwnedBlockTableBuilder::start(2, 1);
    builder.write_compressed_block(0, &[1]).unwrap();
    builder.write_compressed_block(1, &[2]).unwrap();
    builder.write_compressed_block(0, &[3, 4]).unwrap();
    let table = builder.finalize().unwrap();
    assert_eq!(table.block_bytes(0), &[3, 4]);
    assert_eq!(table.block_bytes(1), &[2]);
}

#[test]
fn unwritten_blocks_are_empty() {
    let table = OwnedBlockTableBuilder::start(5, 2).finalize().unwrap();
    for i in 0..5 {
        assert_eq!(table.block_location(i), (0, 0));
        assert!(table.block_bytes(i).is_empty());
    }
}

#[test]
fn zero_block_size_is_refused() {
    let err = BlockTable::new(Vec::new(), vec![BlockLocation2::empty()], 1, 0).err().unwrap();
    assert_eq!(err.kind(), ErrorKind::InvalidArgument);
    let err = OwnedBlockTableBuilder::start(2, 0).finalize().err().unwrap();
    assert_eq!(err.kind(), ErrorKind::InvalidArgument);
}

#[test]
fn two_blocks_share_one_location_entry() {
    let locs = vec![
        BlockLocation2 { offset: [0, 4], len: [4, 2] },
        BlockLocation2 { offset: [6, 0], len: [1, 0] },
    ];
    let table = BlockTable::new(vec![0u8; 7], locs, 3, 8).unwrap();
    assert_eq!(table.block_location(0), (0, 4));
    assert_eq!(table.block_location(1), (4, 2));
    assert_eq!(table.block_location(2), (6, 1));
    assert_eq!(table.nitems(), 24);
}

#[test]
fn split_into_blocks_checks_whole_items_and_blocks() {
    assert_eq!(split_into_blocks(32, 4, 2).unwrap(), (8, 4, 8));
    assert_eq!(split_into_blocks(0, 2, 3).unwrap(), (0, 0, 6));
    assert_eq!(split_into_blocks(8, 0, 2).unwrap_err().kind, ErrorKind::InvalidArgument);
    assert_eq!(split_into_blocks(8, 2, 0).unwrap_err().kind, ErrorKind::InvalidArgument);
    assert_eq!(split_into_blocks(9, 2, 1).unwrap_err().kind, ErrorKind::InvalidArgument);
    assert_eq!(split_into_blocks(12, 2, 4).unwrap_err().kind, ErrorKind::InvalidArgument);
}

#[test]
fn build_from_encoded_blocks_lays_blocks_out_in_order() {
    let encoded = vec![vec![1u8, 2, 3], vec![], vec![9u8]];
    let table = build_from_encoded_blocks(24, 2, 4, &encoded).unwrap();
    assert_eq!(table.nblocks(), 3);
    assert_eq!(table.nitems(), 12);
    assert_eq!(table.block_size(), 4);
    assert_eq!(table.block_bytes(0), &[1, 2, 3]);
    assert_eq!(table.block_bytes(1), &[] as &[u8]);
    assert_eq!(table.block_bytes(2), &[9]);
    assert_eq!(table.block_location(2), (3, 1));
    assert!(build_from_encoded_blocks(24, 2, 4, &encoded[..2]).is_err());
    assert!(build_from_encoded_blocks(24, 2, 5, &encoded).is_err());
}
