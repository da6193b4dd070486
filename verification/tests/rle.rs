use xenotech::util::rle::{checked_decode, decode, encode, DecodeError};
use xenotech::world::block::Block;

#[test]
fn encode_writes_one_run_per_stretch() {
    let blocks = vec![Block::Stone, Block::Stone, Block::Stone, Block::Air, Block::Wire, Block::Wire];
    let bytes = encode(&blocks);
    assert_eq!(
        bytes,
        vec![0, 0, 0, 3, 0, 1, 0, 0, 0, 1, 0, 0, 0, 0, 0, 2, 0, 3]
    );
}

#[test]
fn encode_keeps_the_last_block() {
    assert_eq!(encode(&[Block::Source]), vec![0, 0, 0, 1, 0, 4]);
    assert_eq!(encode(&[Block::Air, Block::Air]), vec![0, 0, 0, 2, 0, 0]);
    assert_eq!(
        encode(&[Block::Air, Block::Machine]),
        vec![0, 0, 0, 1, 0, 0, 0, 0, 0, 1, 0, 2]
    );
}

#[test]
fn decode_undoes_encode() {
    let mut blocks = Vec::new();
    for i in 0..1000usize {
        blocks.push(if (i / 7) % 3 == 0 { Block::Stone } else if i % 5 == 0 { Block::Wire } else { Block::Air });
    }
    assert_eq!(decode(encode(&blocks)), blocks);
}

#[test]
fn decode_reads_big_endian_counts() {
    let bytes = vec![0, 0, 1, 2, 0, 1];
    let blocks = decode(bytes);
    assert_eq!(blocks.len(), 258);
    assert!(blocks.iter().all(|b| *b == Block::Stone));
}

#[test]
fn decode_of_nothing_is_nothing() {
    assert_eq!(decode(Vec::new()), Vec::<Block>::new());
}

#[test]
fn checked_decode_refuses_a_partial_run() {
    assert_eq!(checked_decode(&[0, 0, 0, 1, 0], 10), Err(DecodeError::Truncated));
}

#[test]
fn checked_decode_refuses_an_unknown_block() {
    assert_eq!(
        checked_decode(&[0, 0, 0, 1, 0, 1, 0, 0, 0, 1, 0, 5], 10),
        Err(DecodeError::UnknownBlock)
    );
    assert_eq!(checked_decode(&[0, 0, 0, 1, 1, 0], 10), Err(DecodeError::UnknownBlock));
}

#[test]
fn checked_decode_refuses_more_than_the_limit() {
    assert_eq!(checked_decode(&[0, 0, 0, 3, 0, 1], 2), Err(DecodeError::TooLong));
    assert_eq!(
        checked_decode(&[0, 0, 0, 3, 0, 1], 3),
        Ok(vec![Block::Stone, Block::Stone, Block::Stone])
    );
    assert_eq!(checked_decode(&[255, 255, 255, 255, 0, 1], 100), Err(DecodeError::TooLong));
}
