use xenotech::world::block::Block;
use xenotech::world::chunk::{Chunk, ServerChunk};
use xenotech::world::dimension::{ChunkState, Dimension};
use xenotech::world::lookup::{PositionMap, PositionSet};
use xenotech::world::position::ChunkPosition;

fn p(x: isize) -> ChunkPosition {
    ChunkPosition::new(x, -x, 2 * x)
}

#[test]
fn a_map_holds_one_value_for_each_position() {
    let mut map: PositionMap<u32> = PositionMap::new();
    assert_eq!(map.len(), 0);
    assert_eq!(map.insert(p(1), 10), None);
    assert_eq!(map.insert(p(2), 20), None);
    assert_eq!(map.insert(p(1), 11), Some(10));
    assert_eq!(map.len(), 2);
    assert_eq!(map.get(p(1)), Some(&11));
    assert_eq!(map.get(p(2)), Some(&20));
    assert_eq!(map.get(p(3)), None);
    assert!(map.contains(p(2)));
    assert!(!map.contains(p(3)));
    assert_eq!(map.index_of(p(3)), None);
    let keys = map.keys();
    assert_eq!(keys.len(), 2);
    assert!(keys.contains(&p(1)) && keys.contains(&p(2)));
}

#[test]
fn removing_from_a_map_leaves_the_other_entries() {
    let mut map: PositionMap<u32> = PositionMap::new();
    for i in 0..10 {
        map.insert(p(i), i as u32 * 3);
    }
    assert_eq!(map.remove(p(0)), Some(0));
    assert_eq!(map.remove(p(0)), None);
    assert_eq!(map.remove(p(9)), Some(27));
    assert_eq!(map.remove(p(4)), Some(12));
    assert_eq!(map.remove(p(44)), None);
    assert_eq!(map.len(), 7);
    for i in 0..10 {
        let expected = if i == 0 || i == 4 || i == 9 { None } else { Some(i as u32 * 3) };
        assert_eq!(map.get(p(i)).copied(), expected);
    }
    let keys = map.keys();
    for (i, k) in keys.iter().enumerate() {
        assert_eq!(map.index_of(*k), Some(i));
    }
}

#[test]
fn a_set_holds_every_position_once() {
    let mut set = PositionSet::new();
    assert!(set.insert(p(1)));
    assert!(set.insert(p(2)));
    assert!(!set.insert(p(1)));
    assert_eq!(set.len(), 2);
    assert!(set.contains(p(1)));
    assert!(!set.contains(p(3)));
    assert_eq!(set.at(0), p(1));
    assert!(set.remove(p(1)));
    assert!(!set.remove(p(1)));
    assert_eq!(set.to_vec(), vec![p(2)]);
    assert!(set.insert(p(5)));
    assert_eq!(set.drain(), vec![p(2), p(5)]);
    assert_eq!(set.len(), 0);
    assert!(!set.contains(p(2)));
    assert!(set.drain().is_empty());
}

#[test]
fn a_dimension_hands_out_its_parts() {
    let mut dimension: Dimension<ServerChunk> = Dimension::new();
    assert_eq!(dimension.get_chunks().len(), 0);
    dimension.get_chunks_mut().insert(p(1), ChunkState::Generating);
    dimension.get_chunks_mut().insert(p(2), ChunkState::Active { chunk: ServerChunk::new(0) });
    assert_eq!(dimension.get_chunks().len(), 2);
    assert!(!dimension.is_present(p(1)));
    assert!(dimension.is_present(p(2)));
    assert!(!dimension.is_present(p(3)));
    assert!(dimension.chunk_at(p(1)).is_none());
    assert_eq!(dimension.chunk_at(p(2)).unwrap().block_at(0), Block::Air);
    assert!(!ChunkState::<ServerChunk>::Generating.is_present());
    dimension.get_chunk_updated_mut().insert(p(2));
    dimension.get_chunk_activations_mut().insert(p(1));
    dimension.get_chunk_border_change_mut().insert(p(2), 0b11);
    assert!(dimension.get_chunk_updated().contains(p(2)));
    assert!(dimension.get_chunk_activations().contains(p(1)));
    assert!(!dimension.get_chunk_activations().contains(p(2)));
    assert_eq!(dimension.chunk_border_changed.get(p(2)), Some(&0b11));
    assert!(dimension.blocks_buffer.is_empty());
}
