use xenotech::world::block::Block;
use xenotech::world::chunk::{Chunk, ClientChunk};
use xenotech::world::direction::Direction;
use xenotech::world::position::{ChunkPosition, LocalPosition};
use xenotech::world::structure::{chunk_axis, linearize};
use xenotech::world::visibility::{
    are_all_border_blocks_invisible, calc_block_visible_mask_between_chunks,
    calc_block_visible_mask_inside_chunk, inner_neighbor, neighbor, neighbors, resolve_face,
};

fn at(lod: usize, x: usize, y: usize, z: usize) -> usize {
    linearize(chunk_axis(lod), LocalPosition::new(x, y, z))
}

#[test]
fn inside_mask_of_a_chunk_of_air_is_full() {
    let chunk = ClientChunk::new(0);
    assert_eq!(calc_block_visible_mask_inside_chunk(&chunk, at(0, 0, 0, 0)), 0xFF);
    assert_eq!(calc_block_visible_mask_inside_chunk(&chunk, at(0, 5, 6, 7)), 0xFF);
    assert_eq!(calc_block_visible_mask_inside_chunk(&chunk, at(0, 31, 31, 31)), 0xFF);
}

#[test]
fn inside_mask_clears_the_bit_towards_an_opaque_neighbour() {
    let mut chunk = ClientChunk::new(0);
    chunk.put_block(at(0, 1, 1, 1), Block::Stone);
    assert_eq!(calc_block_visible_mask_inside_chunk(&chunk, at(0, 1, 1, 1)), 0xFF);
    assert_eq!(calc_block_visible_mask_inside_chunk(&chunk, at(0, 0, 1, 1)), 0xFD);
    assert_eq!(calc_block_visible_mask_inside_chunk(&chunk, at(0, 2, 1, 1)), 0xFE);
    assert_eq!(calc_block_visible_mask_inside_chunk(&chunk, at(0, 1, 0, 1)), 0xF7);
    assert_eq!(calc_block_visible_mask_inside_chunk(&chunk, at(0, 1, 2, 1)), 0xFB);
    assert_eq!(calc_block_visible_mask_inside_chunk(&chunk, at(0, 1, 1, 0)), 0xDF);
    assert_eq!(calc_block_visible_mask_inside_chunk(&chunk, at(0, 1, 1, 2)), 0xEF);
    assert_eq!(calc_block_visible_mask_inside_chunk(&chunk, at(0, 2, 2, 1)), 0xFF);
}

#[test]
fn inside_mask_of_a_buried_block_is_empty_but_for_the_spare_bits() {
    let mut chunk = ClientChunk::new(2);
    for i in 0..512usize {
        chunk.put_block(i, Block::Stone);
    }
    assert_eq!(calc_block_visible_mask_inside_chunk(&chunk, at(2, 3, 3, 3)), 0xC0);
    // At the corner three neighbours lie outside the chunk and stay open.
    assert_eq!(calc_block_visible_mask_inside_chunk(&chunk, at(2, 0, 0, 0)), 0xC0 | 0b010101);
    assert_eq!(calc_block_visible_mask_inside_chunk(&chunk, at(2, 7, 7, 7)), 0xC0 | 0b101010);
}

#[test]
fn shared_face_of_equal_levels_mirrors_opacity() {
    let mut a = ClientChunk::new(0);
    let mut b = ClientChunk::new(0);
    a.put_block(at(0, 31, 2, 3), Block::Stone);
    b.put_block(at(0, 0, 5, 7), Block::Stone);
    let changed = calc_block_visible_mask_between_chunks(&mut a, &mut b, Direction::Right, 0, 1);
    assert!(changed);
    for u in 0..32usize {
        for v in 0..32usize {
            let mine = a.get(at(0, 31, u, v)).visible_mask;
            let theirs = b.get(at(0, 0, u, v)).visible_mask;
            // The bit towards the neighbour is clear exactly where the
            // neighbour's cell across the face is opaque.
            assert_eq!(mine & 0b10 == 0, b.get(at(0, 0, u, v)).block.is_opaque());
            assert_eq!(theirs & 0b01 == 0, a.get(at(0, 31, u, v)).block.is_opaque());
            assert_eq!(mine & !0b10, 0);
            assert_eq!(theirs & !0b01, 0);
        }
    }
    assert_eq!(a.get(at(0, 31, 5, 7)).visible_mask, 0);
    assert_eq!(a.get(at(0, 31, 5, 8)).visible_mask, 0b10);
    assert_eq!(b.get(at(0, 0, 2, 3)).visible_mask, 0);
    assert_eq!(b.get(at(0, 0, 3, 2)).visible_mask, 0b01);
    // Nothing off the face was touched.
    assert_eq!(a.get(at(0, 30, 5, 7)).visible_mask, 0);
    assert_eq!(b.get(at(0, 1, 2, 3)).visible_mask, 0);
    assert_eq!(a.neighbor_direction_visibility_mask, 0);
}

#[test]
fn resolving_a_shared_face_again_changes_nothing() {
    let mut a = ClientChunk::new(0);
    let mut b = ClientChunk::new(1);
    a.put_block(at(0, 4, 0, 6), Block::Stone);
    a.put_block(at(0, 5, 0, 6), Block::Stone);
    b.put_block(at(1, 1, 15, 1), Block::Stone);
    assert!(calc_block_visible_mask_between_chunks(&mut a, &mut b, Direction::Forward, 1, -1));
    let first_a: Vec<u8> = (0..32768usize).map(|i| a.get(i).visible_mask).collect();
    let first_b: Vec<u8> = (0..4096usize).map(|i| b.get(i).visible_mask).collect();
    assert!(!calc_block_visible_mask_between_chunks(&mut a, &mut b, Direction::Forward, 1, -1));
    let second_a: Vec<u8> = (0..32768usize).map(|i| a.get(i).visible_mask).collect();
    let second_b: Vec<u8> = (0..4096usize).map(|i| b.get(i).visible_mask).collect();
    assert_eq!(first_a, second_a);
    assert_eq!(first_b, second_b);
}

#[test]
fn shared_face_between_levels_compares_a_cell_with_a_patch() {
    // `fine` lies left of `coarse`; one coarse cell faces two by two fine
    // cells.
    let mut fine = ClientChunk::new(0);
    let mut coarse = ClientChunk::new(1);
    for (u, v) in [(4usize, 6usize), (5, 6), (4, 7), (5, 7)] {
        fine.put_block(at(0, 31, u, v), Block::Stone);
    }
    // Only three of the four cells of this patch are opaque.
    for (u, v) in [(8usize, 8usize), (9, 8), (8, 9)] {
        fine.put_block(at(0, 31, u, v), Block::Stone);
    }
    coarse.put_block(at(1, 0, 1, 1), Block::Stone);
    let changed =
        calc_block_visible_mask_between_chunks(&mut fine, &mut coarse, Direction::Right, 0, 1);
    assert!(changed);
    for u in 0..16usize {
        for v in 0..16usize {
            let bit = coarse.get(at(1, 0, u, v)).visible_mask & 0b01;
            assert_eq!(bit == 0, (u, v) == (2, 3));
        }
    }
    for u in 0..32usize {
        for v in 0..32usize {
            let bit = fine.get(at(0, 31, u, v)).visible_mask & 0b10;
            assert_eq!(bit == 0, u / 2 == 1 && v / 2 == 1);
        }
    }
}

#[test]
fn the_coarser_side_is_found_by_level_not_by_argument_order() {
    let mut fine = ClientChunk::new(0);
    let mut coarse = ClientChunk::new(2);
    fine.put_block(at(0, 3, 3, 0), Block::Stone);
    coarse.put_block(at(2, 5, 5, 7), Block::Stone);
    let mut fine2 = ClientChunk::new(0);
    let mut coarse2 = ClientChunk::new(2);
    fine2.put_block(at(0, 3, 3, 0), Block::Stone);
    coarse2.put_block(at(2, 5, 5, 7), Block::Stone);
    // `coarse` lies above `fine` (towards smaller z).
    calc_block_visible_mask_between_chunks(&mut fine, &mut coarse, Direction::Up, 2, -1);
    calc_block_visible_mask_between_chunks(&mut coarse2, &mut fine2, Direction::Down, 2, 1);
    for i in 0..32768usize {
        assert_eq!(fine.get(i).visible_mask, fine2.get(i).visible_mask);
    }
    for i in 0..512usize {
        assert_eq!(coarse.get(i).visible_mask, coarse2.get(i).visible_mask);
    }
    // The fine cells under the opaque coarse cell lose the bit.
    assert_eq!(fine.get(at(0, 20, 20, 0)).visible_mask & 0b010000, 0);
    assert_eq!(fine.get(at(0, 24, 20, 0)).visible_mask & 0b010000, 0b010000);
}

#[test]
fn resolve_face_reports_whether_a_mask_changed() {
    let mut a = ClientChunk::new(3);
    let b = ClientChunk::new(3);
    assert!(resolve_face(&mut a, &b, Direction::Back));
    assert!(!resolve_face(&mut a, &b, Direction::Back));
    for x in 0..4usize {
        for z in 0..4usize {
            assert_eq!(a.get(at(3, x, 3, z)).visible_mask, 0b001000);
            assert_eq!(a.get(at(3, x, 2, z)).visible_mask, 0);
        }
    }
}

#[test]
fn border_is_invisible_until_a_face_shows() {
    let mut a = ClientChunk::new(3);
    let b = ClientChunk::new(3);
    assert!(are_all_border_blocks_invisible(&a, Direction::Left, 0, -1));
    resolve_face(&mut a, &b, Direction::Left);
    assert!(!are_all_border_blocks_invisible(&a, Direction::Left, 0, -1));
    assert!(are_all_border_blocks_invisible(&a, Direction::Right, 0, 1));
    let mut solid = ClientChunk::new(3);
    for i in 0..64usize {
        solid.put_block(i, Block::Stone);
    }
    let mut c = ClientChunk::new(3);
    resolve_face(&mut c, &solid, Direction::Down);
    assert!(are_all_border_blocks_invisible(&c, Direction::Down, 2, 1));
}

#[test]
fn neighbours_come_in_the_order_of_the_directions() {
    let all = neighbors(ChunkPosition::new(1, 2, 3));
    assert_eq!(all[0].position, ChunkPosition::new(0, 2, 3));
    assert_eq!(all[1].position, ChunkPosition::new(2, 2, 3));
    assert_eq!(all[2].position, ChunkPosition::new(1, 1, 3));
    assert_eq!(all[3].position, ChunkPosition::new(1, 3, 3));
    assert_eq!(all[4].position, ChunkPosition::new(1, 2, 2));
    assert_eq!(all[5].position, ChunkPosition::new(1, 2, 4));
    for (i, n) in all.iter().enumerate() {
        assert_eq!(n.direction.bit() as usize, i);
        assert_eq!(n.dimension, i / 2);
        assert_eq!(n.normal, if i % 2 == 0 { -1 } else { 1 });
        assert_eq!(neighbor(ChunkPosition::new(1, 2, 3), n.direction), Some(*n));
    }
    assert_eq!(neighbor(ChunkPosition::new(isize::MIN, 0, 0), Direction::Left), None);
    assert_eq!(neighbor(ChunkPosition::new(0, 0, isize::MAX), Direction::Down), None);
}

#[test]
fn inner_neighbours_stop_at_the_box() {
    let axis = LocalPosition::new(4, 4, 4);
    let p = LocalPosition::new(0, 3, 2);
    assert_eq!(inner_neighbor(p, axis, Direction::Left), None);
    assert_eq!(inner_neighbor(p, axis, Direction::Right), Some(LocalPosition::new(1, 3, 2)));
    assert_eq!(inner_neighbor(p, axis, Direction::Forward), Some(LocalPosition::new(0, 2, 2)));
    assert_eq!(inner_neighbor(p, axis, Direction::Back), None);
    assert_eq!(inner_neighbor(p, axis, Direction::Up), Some(LocalPosition::new(0, 3, 1)));
    assert_eq!(inner_neighbor(p, axis, Direction::Down), Some(LocalPosition::new(0, 3, 3)));
    // From just beyond the box only the step back in leads inside.
    let out = LocalPosition::new(4, 1, 1);
    assert_eq!(inner_neighbor(out, axis, Direction::Left), Some(LocalPosition::new(3, 1, 1)));
    assert_eq!(inner_neighbor(out, axis, Direction::Right), None);
    assert_eq!(inner_neighbor(out, axis, Direction::Down), None);
}
