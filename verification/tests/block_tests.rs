use mini_lsm::block::builder::BlockBuilder;
use mini_lsm::block::iterator::BlockIterator;
use mini_lsm::block::{Block, DecodeError};
use mini_lsm::keys::{compare_keys, KeyOrder};
use std::sync::Arc;

fn sample_block() -> Block {
    let mut builder = BlockBuilder::new(4096);
    assert!(builder.add(b"a", b"1"));
    assert!(builder.add(b"c", b"2"));
    assert!(builder.add(b"e", b"3"));
    builder.build()
}

fn collect(iter: &mut BlockIterator) -> Vec<(Vec<u8>, Vec<u8>)> {
    let mut out = Vec::new();
    while iter.is_valid() {
        out.push((iter.key().to_vec(), iter.value().to_vec()));
        iter.next();
    }
    out
}

#[test]
fn builder_starts_empty() {
    let builder = BlockBuilder::new(16);
    assert!(builder.is_empty());
    let block = builder.build();
    assert!(block.data.is_empty());
    assert!(block.offsets.is_empty());
}

#[test]
fn builder_lays_entries_end_to_end() {
    let block = sample_block();
    let expected: Vec<u8> =
        vec![0, 1, b'a', 0, 1, b'1', 0, 1, b'c', 0, 1, b'2', 0, 1, b'e', 0, 1, b'3'];
    assert_eq!(block.data, expected);
    assert_eq!(block.offsets, vec![0u16, 6, 12]);
    assert!(block.is_well_formed());
}

#[test]
fn builder_writes_lengths_most_significant_byte_first() {
    let mut builder = BlockBuilder::new(4096);
    let key = vec![7u8; 258];
    let value = vec![9u8; 513];
    assert!(builder.add(&key, &value));
    let block = builder.build();
    assert_eq!(&block.data[0..2], &[1u8, 2]);
    assert_eq!(&block.data[2..260], &key[..]);
    assert_eq!(&block.data[260..262], &[2u8, 1]);
    assert_eq!(&block.data[262..], &value[..]);
    assert_eq!(block.offsets, vec![0u16]);
}

#[test]
fn first_entry_is_taken_whatever_its_size() {
    let mut builder = BlockBuilder::new(1);
    assert!(builder.add(&[1u8; 300], &[2u8; 400]));
    assert!(!builder.is_empty());
    let block = builder.build();
    assert_eq!(block.offsets, vec![0u16]);
    assert_eq!(block.data.len(), 704);
    let mut iter = BlockIterator::create_and_seek_to_first(Arc::new(block));
    assert!(iter.is_valid());
    assert_eq!(iter.key(), &[1u8; 300][..]);
    assert_eq!(iter.value(), &[2u8; 400][..]);
    iter.next();
    assert!(!iter.is_valid());
}

#[test]
fn first_entry_may_be_as_long_as_the_format_allows() {
    let mut builder = BlockBuilder::new(10);
    assert!(builder.add(&vec![1u8; 65535], &vec![2u8; 65535]));
    assert!(!builder.add(b"z", b"z"));
    let block = builder.build();
    assert_eq!(block.data.len(), 4 + 2 * 65535);
    assert!(block.is_well_formed());
}

#[test]
fn writable_tells_what_the_format_can_hold() {
    let mut small = BlockBuilder::new(4096);
    assert!(small.is_writable(b"a", b"1"));
    assert!(!small.is_writable(&vec![0u8; 65536], b"1"));
    assert!(!small.is_writable(b"a", &vec![0u8; 65536]));
    assert!(small.is_writable(&vec![0u8; 65535], &vec![0u8; 65535]));
    assert!(small.add(b"a", b"1"));
    // an entry that the budget refuses is never written
    assert!(small.is_writable(&vec![0u8; 70000], b"1"));
    assert!(!small.add(&vec![0u8; 70000], b"1"));

    let mut large = BlockBuilder::new(1000000);
    assert!(large.add(&vec![1u8; 65535], &vec![2u8; 65535]));
    // within the budget, but no 16-bit offset names the place behind 131074 bytes
    assert!(!large.is_writable(b"z", b"z"));
    // over the budget: refused, so nothing is asked of it
    assert!(large.is_writable(&vec![3u8; 65535], &vec![4u8; 900000]));
    assert!(!large.add(&vec![3u8; 65535], &vec![4u8; 900000]));
    let block = large.build();
    assert_eq!(block.offsets, vec![0u16]);
    assert_eq!(block.data.len(), 131074);
}

#[test]
fn acceptance_goes_by_the_budget_alone() {
    // data of 65535 bytes: the next entry starts at the last place an offset can name
    let mut builder = BlockBuilder::new(1000000);
    assert!(builder.add(&vec![1u8; 65531], b""));
    assert!(builder.is_writable(b"k", b"v"));
    assert!(builder.add(b"k", b"v"));
    let block = builder.build();
    assert_eq!(block.offsets, vec![0u16, 65535]);
    assert!(block.is_well_formed());
    let mut iter = BlockIterator::create_and_seek_to_first(Arc::new(block));
    iter.next();
    assert_eq!(iter.key(), b"k");
    assert_eq!(iter.value(), b"v");
}

#[test]
fn budget_counts_entry_offset_and_count() {
    // One entry of key "a", value "1": 6 bytes of data, 2 of offset, 2 of count.
    // A second entry of the same size adds 6 bytes and one offset: 18 in all.
    let mut exact = BlockBuilder::new(18);
    assert!(exact.add(b"a", b"1"));
    assert!(exact.add(b"c", b"2"));
    let block = exact.build();
    assert_eq!(block.offsets, vec![0u16, 6]);
    assert_eq!(block.encode().len(), 18);

    let mut short = BlockBuilder::new(17);
    assert!(short.add(b"a", b"1"));
    assert!(!short.add(b"c", b"2"));
}

#[test]
fn refused_entry_changes_nothing() {
    let mut builder = BlockBuilder::new(17);
    assert!(builder.add(b"a", b"1"));
    assert!(!builder.add(b"c", b"2"));
    assert!(!builder.add(b"c", b"2"));
    assert!(!builder.is_empty());
    // a smaller entry still fits: 10 + 1 + 0 + 4 + 2 = 17
    assert!(builder.add(b"d", b""));
    let block = builder.build();
    assert_eq!(block.data, vec![0, 1, b'a', 0, 1, b'1', 0, 1, b'd', 0, 0]);
    assert_eq!(block.offsets, vec![0u16, 6]);
}

#[test]
fn encode_layout() {
    let block = sample_block();
    let bytes = block.encode();
    let expected: Vec<u8> = vec![
        0, 1, b'a', 0, 1, b'1', 0, 1, b'c', 0, 1, b'2', 0, 1, b'e', 0, 1, b'3', 0, 0, 0, 6, 0, 12, 0,
        3,
    ];
    assert_eq!(&bytes[..], &expected[..]);
}

#[test]
fn encode_of_empty_block_is_its_count() {
    let block = BlockBuilder::new(64).build();
    assert_eq!(&block.encode()[..], &[0u8, 0][..]);
    let back = Block::decode(&[0, 0]);
    assert!(back.data.is_empty());
    assert!(back.offsets.is_empty());
}

#[test]
fn encode_writes_offsets_most_significant_byte_first() {
    let mut builder = BlockBuilder::new(4096);
    assert!(builder.add(&[1u8; 200], &[2u8; 96]));
    assert!(builder.add(&[3u8; 1], &[4u8; 1]));
    let block = builder.build();
    assert_eq!(block.offsets, vec![0u16, 300]);
    let bytes = block.encode();
    let n = bytes.len();
    assert_eq!(&bytes[n - 6..], &[0u8, 0, 1, 44, 0, 2][..]);
}

#[test]
fn decode_reads_what_encode_wrote() {
    let block = sample_block();
    let bytes = block.encode();
    let back = Block::decode(&bytes);
    assert_eq!(back.data, block.data);
    assert_eq!(back.offsets, block.offsets);
    let mut iter = BlockIterator::create_and_seek_to_first(Arc::new(back));
    assert_eq!(
        collect(&mut iter),
        vec![
            (b"a".to_vec(), b"1".to_vec()),
            (b"c".to_vec(), b"2".to_vec()),
            (b"e".to_vec(), b"3".to_vec()),
        ]
    );
}

#[test]
fn decode_from_the_buffer_that_encode_gave() {
    let block = sample_block();
    let buffer = block.encode();
    let back = Block::try_decode_buffer(&buffer);
    assert!(back.is_ok());
    let back = back.unwrap();
    assert_eq!(back.data, block.data);
    assert_eq!(back.offsets, block.offsets);
    let short = sample_block().encode().slice(0..1);
    assert_eq!(Block::try_decode_buffer(&short).err(), Some(DecodeError::Truncated));
    let cut = sample_block().encode().slice(3..);
    assert_eq!(Block::try_decode_buffer(&cut).err(), Some(DecodeError::Malformed));
}

#[test]
fn decode_round_trip_of_many_entries() {
    let mut builder = BlockBuilder::new(60000);
    let mut pairs = Vec::new();
    for i in 0..500u32 {
        let key = format!("key_{:05}", i).into_bytes();
        let value = format!("value_{}", i * 7).into_bytes();
        assert!(builder.add(&key, &value));
        pairs.push((key, value));
    }
    let block = builder.build();
    let back = Block::try_decode(&block.encode());
    assert!(back.is_ok());
    let back = back.unwrap();
    assert_eq!(back.data, block.data);
    assert_eq!(back.offsets, block.offsets);
    let mut iter = BlockIterator::create_and_seek_to_first(Arc::new(back));
    assert_eq!(collect(&mut iter), pairs);
}

#[test]
fn try_decode_refuses_truncated_bytes() {
    assert_eq!(Block::try_decode(&[]).err(), Some(DecodeError::Truncated));
    assert_eq!(Block::try_decode(&[0]).err(), Some(DecodeError::Truncated));
    assert_eq!(Block::try_decode(&[0, 5]).err(), Some(DecodeError::Truncated));
    assert_eq!(Block::try_decode(&[0, 0, 0, 2]).err(), Some(DecodeError::Truncated));
}

#[test]
fn try_decode_refuses_entries_out_of_bounds() {
    // one entry at offset 0 whose key length asks for a byte that is not there
    assert_eq!(Block::try_decode(&[0, 1, 0, 0, 0, 1]).err(), Some(DecodeError::Malformed));
    // an offset behind the data
    assert_eq!(
        Block::try_decode(&[0, 0, 0, 0, 0, 9, 0, 1]).err(),
        Some(DecodeError::Malformed)
    );
    // offsets that do not increase
    assert_eq!(
        Block::try_decode(&[0, 0, 0, 0, 0, 0, 0, 0, 0, 2]).err(),
        Some(DecodeError::Malformed)
    );
    // data behind the last entry
    assert_eq!(
        Block::try_decode(&[0, 0, 0, 0, 7, 0, 0, 0, 1]).err(),
        Some(DecodeError::Malformed)
    );
}

#[test]
fn try_decode_takes_a_well_formed_block() {
    let block = Block::try_decode(&[0, 0, 0, 0, 0, 0, 0, 1]);
    assert!(block.is_ok());
    let block = block.unwrap();
    assert_eq!(block.data, vec![0u8, 0, 0, 0]);
    assert_eq!(block.offsets, vec![0u16]);
    let empty = Block::try_decode(&[0, 0]);
    assert!(empty.is_ok());
    assert!(empty.unwrap().offsets.is_empty());
}

#[test]
fn iterates_in_order() {
    let block = Arc::new(sample_block());
    let mut iter = BlockIterator::create_and_seek_to_first(block);
    assert!(iter.is_valid());
    assert_eq!(iter.key(), b"a");
    assert_eq!(iter.value(), b"1");
    iter.next();
    assert!(iter.is_valid());
    assert_eq!(iter.key(), b"c");
    assert_eq!(iter.value(), b"2");
    iter.next();
    assert!(iter.is_valid());
    assert_eq!(iter.key(), b"e");
    assert_eq!(iter.value(), b"3");
    iter.next();
    assert!(!iter.is_valid());
}

#[test]
fn next_behind_the_end_stays_there() {
    let block = Arc::new(sample_block());
    let mut iter = BlockIterator::create_and_seek_to_key(block, b"e");
    assert!(iter.is_valid());
    iter.next();
    assert!(!iter.is_valid());
    iter.next();
    iter.next();
    assert!(!iter.is_valid());
    assert!(iter.key().is_empty());
    assert!(iter.value().is_empty());
    iter.seek_to_first();
    assert_eq!(iter.key(), b"a");
}

#[test]
fn iterator_on_empty_block_is_exhausted() {
    let block = Arc::new(BlockBuilder::new(64).build());
    let mut iter = BlockIterator::create_and_seek_to_first(block.clone());
    assert!(!iter.is_valid());
    iter.next();
    assert!(!iter.is_valid());
    let iter = BlockIterator::create_and_seek_to_key(block, b"a");
    assert!(!iter.is_valid());
}

#[test]
fn seek_lands_on_first_key_not_below_target() {
    let block = Arc::new(sample_block());
    let mut iter = BlockIterator::create_and_seek_to_first(block.clone());
    iter.seek_to_key(b"b");
    assert_eq!(iter.key(), b"c");
    assert_eq!(iter.value(), b"2");
    iter.seek_to_key(b"c");
    assert_eq!(iter.key(), b"c");
    assert_eq!(iter.value(), b"2");
    iter.seek_to_key(b"f");
    assert!(!iter.is_valid());
    iter.seek_to_key(b"");
    assert_eq!(iter.key(), b"a");
    iter.seek_to_key(b"a");
    assert_eq!(iter.key(), b"a");
    iter.seek_to_key(b"e");
    assert_eq!(iter.key(), b"e");
    iter.seek_to_key(b"d\xff");
    assert_eq!(iter.key(), b"e");
    iter.seek_to_key(b"a\x00");
    assert_eq!(iter.key(), b"c");
    let iter = BlockIterator::create_and_seek_to_key(block, b"cc");
    assert_eq!(iter.key(), b"e");
    assert_eq!(iter.value(), b"3");
}

#[test]
fn seek_in_a_long_block() {
    let mut builder = BlockBuilder::new(60000);
    for i in 0..1000u32 {
        let key = format!("k{:06}", i * 2).into_bytes();
        assert!(builder.add(&key, &i.to_be_bytes()));
    }
    let block = Arc::new(builder.build());
    let mut iter = BlockIterator::create_and_seek_to_first(block);
    for i in 0..1000u32 {
        iter.seek_to_key(format!("k{:06}", i * 2).as_bytes());
        assert_eq!(iter.value(), &i.to_be_bytes()[..]);
        if i > 0 {
            iter.seek_to_key(format!("k{:06}", i * 2 - 1).as_bytes());
            assert_eq!(iter.value(), &i.to_be_bytes()[..]);
        }
    }
    iter.seek_to_key(b"k999999");
    assert!(!iter.is_valid());
}

#[test]
fn keys_compare_as_unsigned_bytes() {
    assert_eq!(compare_keys(b"a", b"b"), KeyOrder::Less);
    assert_eq!(compare_keys(b"b", b"a"), KeyOrder::Greater);
    assert_eq!(compare_keys(b"abc", b"abc"), KeyOrder::Equal);
    assert_eq!(compare_keys(b"", b""), KeyOrder::Equal);
    assert_eq!(compare_keys(b"", b"a"), KeyOrder::Less);
    assert_eq!(compare_keys(b"ab", b"abc"), KeyOrder::Less);
    assert_eq!(compare_keys(b"abc", b"ab"), KeyOrder::Greater);
    assert_eq!(compare_keys(&[0x7f], &[0x80]), KeyOrder::Less);
    assert_eq!(compare_keys(&[0xff], &[0x00, 0x01]), KeyOrder::Greater);
}
