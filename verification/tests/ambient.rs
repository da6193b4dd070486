use xenotech::world::ambient::{
    calc_ambient_between_chunk_neighbors, calc_ambient_inside_chunk, pack_ambient,
    sample_offsets, set_ambient_between_chunk_neighbors, vertex_ao, voxel_ao,
};
use xenotech::world::block::Block;
use xenotech::world::chunk::{Chunk, ClientChunk};
use xenotech::world::direction::Direction;
use xenotech::world::position::{ChunkPosition, LocalPosition, WorldPosition};
use xenotech::world::structure::{chunk_axis, linearize};

fn at(lod: usize, x: usize, y: usize, z: usize) -> usize {
    linearize(chunk_axis(lod), LocalPosition::new(x, y, z))
}

#[test]
fn vertex_ao_adds_sides_and_the_larger_of_corner_and_product() {
    assert_eq!(vertex_ao(0, 0, 0), 0);
    assert_eq!(vertex_ao(1, 0, 0), 1);
    assert_eq!(vertex_ao(0, 1, 0), 1);
    assert_eq!(vertex_ao(0, 0, 1), 1);
    assert_eq!(vertex_ao(1, 0, 1), 2);
    assert_eq!(vertex_ao(0, 1, 1), 2);
    assert_eq!(vertex_ao(1, 1, 0), 3);
    assert_eq!(vertex_ao(1, 1, 1), 3);
}

#[test]
fn voxel_ao_pairs_each_corner_with_its_two_sides() {
    assert_eq!(voxel_ao(&[false; 8]), [0, 0, 0, 0]);
    assert_eq!(voxel_ao(&[true; 8]), [3, 3, 3, 3]);
    let mut one_side = [false; 8];
    one_side[0] = true;
    assert_eq!(voxel_ao(&one_side), [1, 0, 0, 1]);
    let mut one_corner = [false; 8];
    one_corner[6] = true;
    assert_eq!(voxel_ao(&one_corner), [0, 0, 1, 0]);
    let mut two_sides = [false; 8];
    two_sides[1] = true;
    two_sides[2] = true;
    assert_eq!(voxel_ao(&two_sides), [1, 3, 1, 0]);
}

#[test]
fn packing_keeps_two_bits_for_each_corner() {
    assert_eq!(pack_ambient(&[false; 8]), 255);
    assert_eq!(pack_ambient(&[true; 8]), 0);
    let mut one_side = [false; 8];
    one_side[0] = true;
    assert_eq!(pack_ambient(&one_side), 190);
    let mut second_side = [false; 8];
    second_side[1] = true;
    assert_eq!(pack_ambient(&second_side), 250);
    let mut one_corner = [false; 8];
    one_corner[6] = true;
    // Levels 0, 0, 1, 0: three, three, two, three.
    assert_eq!(pack_ambient(&one_corner), 3 | 3 << 2 | 2 << 4 | 3 << 6);
}

#[test]
fn sample_offsets_surround_the_cell_across_the_face() {
    let right = sample_offsets(Direction::Right);
    assert_eq!(right[0], WorldPosition::new(1, 1, 0));
    assert_eq!(right[1], WorldPosition::new(1, 0, 1));
    assert_eq!(right[2], WorldPosition::new(1, -1, 0));
    assert_eq!(right[3], WorldPosition::new(1, 0, -1));
    assert_eq!(right[4], WorldPosition::new(1, 1, 1));
    assert_eq!(right[5], WorldPosition::new(1, -1, 1));
    assert_eq!(right[6], WorldPosition::new(1, -1, -1));
    assert_eq!(right[7], WorldPosition::new(1, 1, -1));
    let up = sample_offsets(Direction::Up);
    assert_eq!(up[0], WorldPosition::new(-1, 0, -1));
    assert_eq!(up[1], WorldPosition::new(0, -1, -1));
    for d in Direction::all() {
        for o in sample_offsets(d) {
            let along = match d.axis_index() {
                0 => o.x,
                1 => o.y,
                _ => o.z,
            };
            assert_eq!(along, if d.is_positive() { 1 } else { -1 });
        }
    }
}

#[test]
fn inside_ambient_is_full_without_anything_opaque_around() {
    let chunk = ClientChunk::new(0);
    assert_eq!(calc_ambient_inside_chunk(&chunk, at(0, 5, 5, 5)), [255; 6]);
    assert_eq!(calc_ambient_inside_chunk(&chunk, at(0, 0, 0, 0)), [255; 6]);
    assert_eq!(calc_ambient_inside_chunk(&chunk, at(0, 31, 31, 31)), [255; 6]);
}

#[test]
fn inside_ambient_darkens_the_corners_next_to_an_opaque_block() {
    let mut chunk = ClientChunk::new(0);
    chunk.put_block(at(0, 6, 6, 5), Block::Stone);
    assert_eq!(
        calc_ambient_inside_chunk(&chunk, at(0, 5, 5, 5)),
        [255, 190, 255, 250, 255, 255]
    );
}

#[test]
fn inside_ambient_ignores_what_lies_outside_the_chunk() {
    let mut chunk = ClientChunk::new(3);
    for i in 0..64usize {
        chunk.put_block(i, Block::Stone);
    }
    // At the corner the faces that look out of the chunk keep full
    // brightness; the others are shaded by the chunk's own blocks.
    let corner = calc_ambient_inside_chunk(&chunk, at(3, 0, 0, 0));
    assert_eq!(corner[0], 255);
    assert_eq!(corner[2], 255);
    assert_eq!(corner[4], 255);
    // Towards +x the cell across the face is (1, 0, 0); of the cells around
    // it only those with y and z at least 0 exist.
    assert_eq!(corner[1], pack_ambient(&[true, true, false, false, true, false, false, false]));
    let middle = calc_ambient_inside_chunk(&chunk, at(3, 1, 1, 1));
    assert_eq!(middle, [0; 6]);
}

fn hood_with(center_mask_cell: usize, stone: Option<(usize, usize)>) -> Vec<ClientChunk> {
    let mut chunks: Vec<ClientChunk> = Vec::new();
    for _ in 0..27 {
        chunks.push(ClientChunk::new(0));
    }
    chunks[13].get_mut(center_mask_cell).visible_mask = 0xFF;
    if let Some((slot, cell)) = stone {
        chunks[slot].put_block(cell, Block::Stone);
    }
    chunks
}

#[test]
fn border_ambient_reads_the_neighbouring_chunk() {
    let cell = at(0, 31, 5, 5);
    assert_eq!(cell, 5311);
    // The chunk one step towards +x stands at place 14 of the block.
    let chunks = hood_with(cell, Some((14, at(0, 0, 6, 5))));
    let refs: Vec<&ClientChunk> = chunks.iter().collect();
    let all = calc_ambient_between_chunk_neighbors(
        &refs,
        ChunkPosition::new(0, 0, 0),
        Direction::Right,
        0,
        1,
    );
    assert_eq!(all.len(), 32768);
    for (i, values) in all.iter().enumerate() {
        if i == cell {
            assert_eq!(
                *values,
                Some([Some(255), Some(190), Some(255), Some(250), Some(255), Some(255)])
            );
        } else {
            assert_eq!(*values, None);
        }
    }
}

#[test]
fn border_ambient_is_the_same_wherever_the_block_of_chunks_stands() {
    let cell = at(0, 0, 0, 9);
    // The chunk one step towards -x and -y stands at place 9.
    let chunks = hood_with(cell, Some((9, at(0, 31, 31, 9))));
    let refs: Vec<&ClientChunk> = chunks.iter().collect();
    let near = calc_ambient_between_chunk_neighbors(
        &refs,
        ChunkPosition::new(0, 0, 0),
        Direction::Left,
        0,
        -1,
    );
    let far = calc_ambient_between_chunk_neighbors(
        &refs,
        ChunkPosition::new(-7, 1000, -3),
        Direction::Left,
        0,
        -1,
    );
    assert_eq!(near, far);
    let values = near[cell].unwrap();
    // The chunk diagonal to the cell shades the faces towards -x and
    // towards -y and no other.
    assert_ne!(values[0], Some(255));
    assert_ne!(values[2], Some(255));
    assert_eq!(values[1], Some(255));
    assert_eq!(values[3], Some(255));
}

#[test]
fn border_ambient_skips_cells_that_show_nothing() {
    let mut chunks: Vec<ClientChunk> = Vec::new();
    for _ in 0..27 {
        chunks.push(ClientChunk::new(1));
    }
    chunks[13].get_mut(at(1, 3, 0, 3)).visible_mask = 0xC0;
    chunks[13].get_mut(at(1, 4, 0, 4)).visible_mask = 0x01;
    let refs: Vec<&ClientChunk> = chunks.iter().collect();
    let all = calc_ambient_between_chunk_neighbors(
        &refs,
        ChunkPosition::new(2, 2, 2),
        Direction::Forward,
        1,
        -1,
    );
    assert_eq!(all.len(), 4096);
    assert_eq!(all[at(1, 3, 0, 3)], None);
    assert_eq!(all[at(1, 4, 0, 4)], Some([Some(255); 6]));
    assert_eq!(all.iter().filter(|v| v.is_some()).count(), 1);
}

#[test]
fn set_ambient_writes_only_what_a_pass_found() {
    let mut chunk = ClientChunk::new(3);
    chunk.get_mut(2).ambient = [1, 2, 3, 4, 5, 6];
    chunk.get_mut(2).visible_mask = 9;
    chunk.get_mut(5).ambient = [7; 6];
    let mut values = vec![None; 64];
    values[2] = Some([Some(10), None, Some(30), None, None, Some(60)]);
    values[3] = Some([None; 6]);
    set_ambient_between_chunk_neighbors(values, &mut chunk);
    assert_eq!(chunk.get(2).ambient, [10, 2, 30, 4, 5, 60]);
    assert_eq!(chunk.get(2).visible_mask, 9);
    assert_eq!(chunk.get(3).ambient, [0; 6]);
    assert_eq!(chunk.get(5).ambient, [7; 6]);
    // A pass shorter than the chunk leaves the rest alone.
    set_ambient_between_chunk_neighbors(vec![Some([Some(99); 6])], &mut chunk);
    assert_eq!(chunk.get(0).ambient, [99; 6]);
    assert_eq!(chunk.get(2).ambient, [10, 2, 30, 4, 5, 60]);
}
