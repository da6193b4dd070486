use xenotech::world::block::Block;
use xenotech::world::chunk::{Chunk, ClientBlockInfo, ClientChunk};
use xenotech::world::direction::Direction;
use xenotech::world::mesh::{cubic_block, gen_block_mesh, unpack_ambient, BlockVertex};
use xenotech::world::position::LocalPosition;

#[test]
fn a_vertex_packs_its_parts_into_four_words() {
    let v = BlockVertex::new(LocalPosition::new(1, 2, 3), (true, false), 4, 7, [85, 85, 85, 255]);
    assert_eq!(v.data, [66051, 4294901760, 67108871, 1431655935]);
    let w = BlockVertex::new(
        LocalPosition::new(256 + 5, 0, 1023),
        (false, true),
        5,
        0x12345678,
        [0, 1, 2, 3],
    );
    assert_eq!(w.data, [5 << 16 | 255, 65535, 5 << 24 | 0x345678, 1 << 16 | 2 << 8 | 3]);
}

#[test]
fn the_tint_is_the_brightness_of_the_corner() {
    let ambient = [0, 0b11_10_01_00, 0, 0, 0, 255];
    assert_eq!(unpack_ambient(Direction::Right, 0, ambient), [0, 0, 0, 255]);
    assert_eq!(unpack_ambient(Direction::Right, 1, ambient), [85, 85, 85, 255]);
    assert_eq!(unpack_ambient(Direction::Right, 2, ambient), [170, 170, 170, 255]);
    assert_eq!(unpack_ambient(Direction::Right, 3, ambient), [255, 255, 255, 255]);
    assert_eq!(unpack_ambient(Direction::Down, 2, ambient), [255, 255, 255, 255]);
    assert_eq!(unpack_ambient(Direction::Left, 3, ambient), [0, 0, 0, 255]);
}

#[test]
fn a_block_gives_four_corners_and_two_triangles_for_each_face_that_shows() {
    let info = ClientBlockInfo { block: Block::Stone, visible_mask: 0b000101, ambient: [255; 6] };
    let mut vertices = vec![BlockVertex::new(LocalPosition::new(0, 0, 0), (false, false), 0, 0, [0; 4]); 3];
    let mut indices = vec![0u32, 1, 2];
    cubic_block(&info, 2, LocalPosition::new(1, 2, 3), &[10, 11, 12, 13, 14, 15], &mut vertices, &mut indices);
    assert_eq!(vertices.len(), 3 + 8);
    assert_eq!(indices, vec![0, 1, 2, 4, 3, 6, 4, 6, 5, 8, 7, 10, 8, 10, 9]);
    // The face towards -x: corners 4, 5, 1, 0 of the unit cube, scaled by
    // two from the block's place.
    let white = 255u32 << 24 | 255 << 16 | 255 << 8 | 255;
    assert_eq!(vertices[3].data, [2 << 16 | 4 << 8 | 6, 0, 10, white]);
    assert_eq!(vertices[4].data, [2 << 16 | 6 << 8 | 6, 65535, 10, white]);
    assert_eq!(vertices[5].data, [2 << 16 | 6 << 8 | 8, 65535 << 16 | 65535, 10, white]);
    assert_eq!(vertices[6].data, [2 << 16 | 4 << 8 | 8, 65535 << 16, 10, white]);
    // The face towards -y: corners 0, 3, 7, 4.
    assert_eq!(vertices[7].data, [2 << 16 | 4 << 8 | 8, 0, 2 << 24 | 12, white]);
    assert_eq!(vertices[8].data, [4 << 16 | 4 << 8 | 8, 65535, 2 << 24 | 12, white]);
    assert_eq!(vertices[9].data, [4 << 16 | 4 << 8 | 6, 65535 << 16 | 65535, 2 << 24 | 12, white]);
    assert_eq!(vertices[10].data, [2 << 16 | 4 << 8 | 6, 65535 << 16, 2 << 24 | 12, white]);
}

#[test]
fn the_corners_of_a_face_take_their_brightness_in_the_order_of_the_face() {
    // Levels 0, 1, 2, 3 for the four corners of the face towards +x.
    let info = ClientBlockInfo {
        block: Block::Stone,
        visible_mask: 0b000010,
        ambient: [0, 0b11_10_01_00, 0, 0, 0, 0],
    };
    let mut vertices = Vec::new();
    let mut indices = Vec::new();
    cubic_block(&info, 1, LocalPosition::new(0, 0, 0), &[0; 6], &mut vertices, &mut indices);
    let greys: Vec<u32> = vertices.iter().map(|v| v.data[3] >> 24).collect();
    // The order for the opposite direction, towards -x, is 1, 0, 3, 2.
    assert_eq!(greys, vec![85, 0, 255, 170]);
    assert!(vertices.iter().all(|v| v.data[3] & 0xFF == 255));
    assert!(vertices.iter().all(|v| v.data[2] == 1 << 24));
}

#[test]
fn a_block_that_shows_nothing_adds_nothing() {
    let info = ClientBlockInfo { block: Block::Stone, visible_mask: 0xC0, ambient: [0; 6] };
    let mut vertices = Vec::new();
    let mut indices = Vec::new();
    cubic_block(&info, 1, LocalPosition::new(0, 0, 0), &[0; 6], &mut vertices, &mut indices);
    assert!(vertices.is_empty());
    assert!(indices.is_empty());
}

#[test]
fn the_mesh_of_a_chunk_holds_the_faces_of_its_opaque_blocks() {
    let mut chunk = ClientChunk::new(3);
    chunk.put_block(5, Block::Stone);
    chunk.get_mut(5).visible_mask = 0b111111;
    chunk.put_block(9, Block::Wire);
    chunk.get_mut(9).visible_mask = 0b100001;
    // Air shows nothing, whatever its mask says.
    chunk.get_mut(20).visible_mask = 0xFF;
    let mut table = [0u32; 30];
    for (i, t) in table.iter_mut().enumerate() {
        *t = 100 + i as u32;
    }
    let (vertices, indices) = gen_block_mesh(&chunk, &table);
    assert_eq!(vertices.len(), 4 * 8);
    assert_eq!(indices.len(), 6 * 8);
    assert!(indices.iter().all(|i| (*i as usize) < vertices.len()));
    // Stone has the id 1 and wire the id 3.
    for (k, v) in vertices.iter().enumerate() {
        let face = k / 4;
        let (block, dir) = if face < 6 { (1, face) } else { (3, if face == 6 { 0 } else { 5 }) };
        assert_eq!(v.data[2], (dir as u32) << 24 | (100 + block * 6 + dir as u32));
    }
    // Cell 5 of a chunk of edge 4 is (1, 1, 0), and a block of this level
    // is eight blocks wide.
    assert_eq!(vertices[0].data[0], 8 << 16 | 8 << 8);
    let empty = gen_block_mesh(&ClientChunk::new(0), &table);
    assert!(empty.0.is_empty() && empty.1.is_empty());
}
