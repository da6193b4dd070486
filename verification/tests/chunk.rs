use xenotech::world::block::Block;
use xenotech::world::chunk::{
    BlockMut, BlockRef, Chunk, ClientBlockInfo, ClientChunk, ServerBlockInfo, ServerChunk,
};

#[test]
fn a_new_client_chunk_is_air_with_nothing_derived() {
    for lod in 0..=5usize {
        let chunk = ClientChunk::new(lod);
        assert_eq!(chunk.lod_level(), lod);
        assert_eq!(chunk.size(), 32768 >> (3 * lod));
        assert!(chunk.inner_dirty);
        assert_eq!(chunk.neighbor_direction_visibility_mask, 0);
        assert_eq!(chunk.neighbor_direction_ao_mask, 0);
        for i in 0..chunk.size() {
            assert_eq!(*chunk.get(i), ClientBlockInfo::default());
            assert_eq!(chunk.block_at(i), Block::Air);
        }
    }
    assert_eq!(ClientChunk::new(6).lod_level(), 5);
    assert_eq!(ClientChunk::new(usize::MAX).size(), 1);
}

#[test]
fn a_server_chunk_has_the_cells_of_its_level() {
    for (lod, cells) in [(0usize, 32768usize), (1, 4096), (2, 512), (3, 64), (4, 8), (5, 1)] {
        let chunk = ServerChunk::new(lod);
        assert_eq!(chunk.lod_level(), lod);
        assert_eq!(chunk.size(), cells);
        assert_eq!(*chunk.get(cells - 1), ServerBlockInfo::default());
        assert_eq!(chunk.tile_bound(), 0);
    }
    assert_eq!(ServerChunk::new(9).lod_level(), 5);
    assert_eq!(ServerChunk::new(9).size(), 1);
}

#[test]
fn writing_a_block_keeps_what_was_derived() {
    let mut chunk = ClientChunk::new(4);
    chunk.set(3, ClientBlockInfo { block: Block::Air, visible_mask: 5, ambient: [1, 2, 3, 4, 5, 6] });
    assert_eq!(chunk.put_block(3, Block::Wire), None);
    assert_eq!(
        *chunk.get(3),
        ClientBlockInfo { block: Block::Wire, visible_mask: 5, ambient: [1, 2, 3, 4, 5, 6] }
    );
    chunk.get_mut(3).visible_mask = 9;
    assert_eq!(chunk.get(3).visible_mask, 9);
    assert_eq!(chunk.get(3).block, Block::Wire);
    assert_eq!(*chunk.get(2), ClientBlockInfo::default());
}

#[test]
fn a_cell_hands_out_its_block() {
    let mut client = ClientBlockInfo { block: Block::Stone, visible_mask: 7, ambient: [9; 6] };
    assert_eq!(*BlockRef::block_ref(&client), Block::Stone);
    *client.block_mut() = Block::Source;
    assert_eq!(*BlockMut::block_ref(&client), Block::Source);
    assert_eq!(client.visible_mask, 7);
    assert_eq!(client.ambient, [9; 6]);
    let mut server = ServerBlockInfo { block: Block::Air, rotation: 2 };
    assert_eq!(*BlockRef::block_ref(&server), Block::Air);
    *server.block_mut() = Block::Machine;
    assert_eq!(server, ServerBlockInfo { block: Block::Machine, rotation: 2 });
}
