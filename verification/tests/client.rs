use xenotech::util::rle::encode;
use xenotech::world::ambient::calc_ambient_inside_chunk;
use xenotech::world::block::Block;
use xenotech::world::chunk::{Chunk, ClientBlockInfo, ClientChunk};
use xenotech::world::client::{internal, ClientWorld, InternalReq, MAX_PROCESS};
use xenotech::world::dimension::ChunkState;
use xenotech::world::position::{ChunkPosition, LocalPosition};
use xenotech::world::server::{ChunkActivated, ChunkUpdated};
use xenotech::world::structure::{chunk_axis, chunk_size, linearize};
use xenotech::world::visibility::calc_block_visible_mask_inside_chunk;

fn at(lod: usize, x: usize, y: usize, z: usize) -> usize {
    linearize(chunk_axis(lod), LocalPosition::new(x, y, z))
}

/// The bytes of a chunk of air at the level with one stone in it.
fn one_stone(lod: usize, cell: usize) -> Vec<u8> {
    let mut blocks = vec![Block::Air; chunk_size(lod)];
    blocks[cell] = Block::Stone;
    encode(&blocks)
}

fn air(lod: usize) -> Vec<u8> {
    encode(&vec![Block::Air; chunk_size(lod)])
}

fn cells(world: &ClientWorld, p: ChunkPosition) -> Vec<ClientBlockInfo> {
    let chunk = world.dimension.chunk_at(p).unwrap();
    (0..chunk.size()).map(|i| *chunk.get(i)).collect()
}

fn is_active(world: &ClientWorld, p: ChunkPosition) -> bool {
    matches!(world.dimension.chunks.get(p), Some(ChunkState::Active { .. }))
}

fn is_stasis(world: &ClientWorld, p: ChunkPosition) -> bool {
    matches!(world.dimension.chunks.get(p), Some(ChunkState::Stasis { .. }))
}

fn tick(world: &mut ClientWorld) {
    world.calc_visibility();
    world.calc_border_ao();
    world.activate();
}

#[test]
fn internal_fills_the_chunk_and_derives_its_cells() {
    let mut blocks = vec![Block::Air; 512];
    blocks[at(2, 3, 3, 3)] = Block::Stone;
    let req = InternalReq {
        position: ChunkPosition::new(1, 2, 3),
        blocks: blocks.clone(),
        chunk: ClientChunk::new(2),
    };
    assert!(req.is_valid());
    let resp = internal(req);
    assert!(resp.is_valid());
    assert_eq!(resp.position, ChunkPosition::new(1, 2, 3));
    assert!(!resp.all_transparent);
    for i in 0..512usize {
        let info = resp.chunk.get(i);
        assert_eq!(info.block, blocks[i]);
        assert_eq!(info.visible_mask, calc_block_visible_mask_inside_chunk(&resp.chunk, i));
    }
    assert_eq!(resp.chunk.get(at(2, 2, 3, 3)).visible_mask, 0xFD);
    assert_eq!(resp.chunk.get(at(2, 3, 3, 3)).visible_mask, 0xFF);
    assert_eq!(resp.chunk.get(at(2, 0, 0, 0)).ambient, [255; 6]);
    // The cell diagonal to the stone has two faces shaded by it.
    assert_eq!(resp.chunk.get(at(2, 2, 2, 3)).ambient, [255, 190, 255, 250, 255, 255]);
}

#[test]
fn internal_leaves_a_chunk_of_air_underived() {
    let req = InternalReq {
        position: ChunkPosition::new(0, 0, 0),
        blocks: vec![Block::Air; 64],
        chunk: ClientChunk::new(3),
    };
    let resp = internal(req);
    assert!(resp.all_transparent);
    for i in 0..64usize {
        assert_eq!(*resp.chunk.get(i), ClientBlockInfo { block: Block::Air, visible_mask: 0, ambient: [0; 6] });
    }
}

#[test]
fn a_request_with_too_few_blocks_is_not_valid() {
    let req = InternalReq {
        position: ChunkPosition::new(0, 0, 0),
        blocks: vec![Block::Air; 63],
        chunk: ClientChunk::new(3),
    };
    assert!(!req.is_valid());
    let mut touched = ClientChunk::new(3);
    touched.neighbor_direction_ao_mask = 1;
    let req = InternalReq { position: ChunkPosition::new(0, 0, 0), blocks: vec![Block::Air; 64], chunk: touched };
    assert!(!req.is_valid());
}

#[test]
fn an_activation_marks_the_chunk_as_being_generated() {
    let mut world = ClientWorld::new();
    let p = ChunkPosition::new(4, 5, 6);
    let req = world.recv_chunk_activations(p, 3, &one_stone(3, 7)).unwrap();
    assert!(matches!(world.dimension.chunks.get(p), Some(ChunkState::Generating)));
    assert_eq!(req.position, p);
    assert_eq!(req.blocks.len(), 64);
    assert_eq!(req.blocks[7], Block::Stone);
    assert_eq!(req.chunk.lod, 3);
    let resp = internal(req);
    world.calc_internal(resp);
    assert!(is_stasis(&world, p));
    assert!(world.needs_visibility.contains(p));
    assert!(world.needs_ao.contains(p));
}

#[test]
fn an_activation_that_cannot_be_read_is_dropped() {
    let mut world = ClientWorld::new();
    let p = ChunkPosition::new(0, 0, 0);
    // Not a whole run.
    assert!(world.recv_chunk_activations(p, 3, &[0, 0, 0, 64, 0]).is_none());
    // An unknown block.
    assert!(world.recv_chunk_activations(p, 3, &[0, 0, 0, 64, 0, 9]).is_none());
    // Too few blocks for the level.
    assert!(world.recv_chunk_activations(p, 3, &[0, 0, 0, 63, 0, 1]).is_none());
    // More blocks than any chunk holds.
    assert!(world.recv_chunk_activations(p, 3, &[0, 0, 128, 1, 0, 1]).is_none());
    assert!(!world.apply_activation(p, 3, &[0, 0, 0, 63, 0, 1]));
    assert_eq!(world.dimension.chunks.len(), 0);
    // A level beyond the coarsest.
    assert!(world.recv_chunk_activations(p, 6, &[0, 0, 0, 1, 0, 1]).is_none());
    assert!(!world.apply_activation(p, 99, &[0, 0, 0, 1, 0, 1]));
    assert!(!world.apply_activation(p, usize::MAX, &air(0)));
    assert_eq!(world.dimension.chunks.len(), 0);
    // The coarsest level holds one block.
    assert!(world.apply_activation(p, 5, &[0, 0, 0, 1, 0, 1]));
    assert_eq!(world.dimension.chunk_at(p).unwrap().lod, 5);
    assert_eq!(world.dimension.chunk_at(p).unwrap().get(0).block, Block::Stone);
}

#[test]
fn a_chunk_of_air_becomes_active_at_once() {
    let mut world = ClientWorld::new();
    let p = ChunkPosition::new(0, 0, 0);
    assert!(world.apply_activation(p, 2, &air(2)));
    assert!(is_active(&world, p));
    assert!(!world.needs_visibility.contains(p));
    assert!(!world.needs_ao.contains(p));
    // It was never in stasis, so it is no activation of this tick.
    world.activate();
    assert_eq!(world.dimension.chunk_activations.len(), 0);
}

#[test]
fn applying_an_activation_twice_is_like_applying_it_once() {
    let mut world = ClientWorld::new();
    let p = ChunkPosition::new(-3, 0, 8);
    let q = ChunkPosition::new(-3, 0, 9);
    let mut blocks = vec![Block::Air; 512];
    for (i, b) in blocks.iter_mut().enumerate() {
        if i % 7 == 0 || i % 11 == 3 {
            *b = Block::Stone;
        }
    }
    let bytes = encode(&blocks);
    assert!(world.apply_activation(q, 2, &air(2)));
    assert!(world.apply_activation(p, 2, &bytes));
    let once = cells(&world, p);
    let once_other = cells(&world, q);
    let frame = world.dimension.chunk_at(p).map(|c| {
        (c.lod, c.inner_dirty, c.neighbor_direction_visibility_mask, c.neighbor_direction_ao_mask)
    });
    let waiting = (world.needs_visibility.len(), world.needs_ao.len());
    assert!(world.apply_activation(p, 2, &bytes));
    assert_eq!(cells(&world, p), once);
    assert_eq!(cells(&world, q), once_other);
    assert_eq!(
        world.dimension.chunk_at(p).map(|c| {
            (c.lod, c.inner_dirty, c.neighbor_direction_visibility_mask, c.neighbor_direction_ao_mask)
        }),
        frame
    );
    assert_eq!((world.needs_visibility.len(), world.needs_ao.len()), waiting);
    assert!(is_stasis(&world, p));
    assert!(is_active(&world, q));
    assert_eq!(world.dimension.chunks.len(), 2);
    for (i, info) in once.iter().enumerate() {
        assert_eq!(info.block, blocks[i]);
    }
}

#[test]
fn a_chunk_becomes_active_only_when_all_around_it_are_there() {
    let mut world = ClientWorld::new();
    let center = ChunkPosition::new(0, 0, 0);
    let last = ChunkPosition::new(1, 1, 1);
    let stone = one_stone(2, at(2, 3, 3, 3));
    for z in -1..=1isize {
        for y in -1..=1isize {
            for x in -1..=1isize {
                let p = ChunkPosition::new(x, y, z);
                if p != last {
                    assert!(world.apply_activation(p, 2, &stone));
                }
            }
        }
    }
    assert_eq!(world.dimension.chunks.len(), 26);
    for _ in 0..3 {
        tick(&mut world);
        // All six neighbours are there, so the faces are resolved; the
        // brightness along the border still waits for the corner.
        assert!(is_stasis(&world, center));
        assert!(!world.needs_visibility.contains(center));
        assert!(world.needs_ao.contains(center));
        assert!(!world.is_border_ready(center));
        assert_eq!(world.dimension.chunk_activations.len(), 0);
        let chunk = world.dimension.chunk_at(center).unwrap();
        assert_eq!(chunk.neighbor_direction_visibility_mask, 63);
        assert_ne!(chunk.neighbor_direction_ao_mask, 63);
    }
    assert!(world.apply_activation(last, 2, &stone));
    assert!(world.is_border_ready(center));
    tick(&mut world);
    assert!(is_active(&world, center));
    assert!(world.dimension.chunk_activations.contains(center));
    assert_eq!(world.dimension.chunk_activations.len(), 1);
    let chunk = world.dimension.chunk_at(center).unwrap();
    assert_eq!(chunk.neighbor_direction_visibility_mask, 63);
    assert_eq!(chunk.neighbor_direction_ao_mask, 63);
    // No chunk at the rim has all its neighbours.
    for z in -1..=1isize {
        for y in -1..=1isize {
            for x in -1..=1isize {
                let p = ChunkPosition::new(x, y, z);
                if p != center {
                    assert!(is_stasis(&world, p));
                    assert!(world.needs_visibility.contains(p));
                }
            }
        }
    }
}

#[test]
fn resolving_faces_between_chunks_hides_what_touches_stone() {
    let mut world = ClientWorld::new();
    let center = ChunkPosition::new(0, 0, 0);
    // Stone in the middle chunk touches the chunk towards +x, which holds
    // stone right across the face.
    let mut middle = vec![Block::Air; 64];
    middle[at(3, 3, 1, 1)] = Block::Stone;
    let mut right = vec![Block::Air; 64];
    right[at(3, 0, 1, 1)] = Block::Stone;
    right[at(3, 0, 2, 2)] = Block::Stone;
    for z in -1..=1isize {
        for y in -1..=1isize {
            for x in -1..=1isize {
                let p = ChunkPosition::new(x, y, z);
                let blocks = if p == center {
                    &middle
                } else if (x, y, z) == (1, 0, 0) {
                    &right
                } else {
                    &middle
                };
                assert!(world.apply_activation(p, 3, &encode(blocks)));
            }
        }
    }
    let done = world.calc_visibility();
    assert_eq!(done, vec![center]);
    let chunk = world.dimension.chunk_at(center).unwrap();
    assert_eq!(chunk.get(at(3, 3, 1, 1)).visible_mask & 0b10, 0);
    assert_eq!(chunk.get(at(3, 3, 2, 2)).visible_mask & 0b10, 0);
    assert_eq!(chunk.get(at(3, 3, 0, 0)).visible_mask & 0b10, 0b10);
    let other = world.dimension.chunk_at(ChunkPosition::new(1, 0, 0)).unwrap();
    assert_eq!(other.get(at(3, 0, 1, 1)).visible_mask & 0b01, 0);
    assert_eq!(other.get(at(3, 0, 2, 2)).visible_mask & 0b01, 0b01);
    // No face counts as resolved for brightness yet.
    assert_eq!(chunk.neighbor_direction_ao_mask, 0);
    assert_eq!(chunk.neighbor_direction_visibility_mask, 63);
    assert!(world.needs_ao.contains(center));
    // A second pass finds nothing to do.
    assert_eq!(world.calc_visibility(), Vec::<ChunkPosition>::new());
}

#[test]
fn a_tick_resolves_no_more_than_its_share() {
    let mut world = ClientWorld::new();
    // The stone touches no face, so resolving faces changes no mask.
    let stone = one_stone(3, at(3, 1, 1, 1));
    for z in 0..6isize {
        for y in 0..6isize {
            for x in 0..6isize {
                assert!(world.apply_activation(ChunkPosition::new(x, y, z), 3, &stone));
            }
        }
    }
    assert_eq!(world.needs_visibility.len(), 216);
    // Sixty-four chunks have all six neighbours.
    let first = world.calc_visibility();
    assert_eq!(first.len(), MAX_PROCESS);
    assert_eq!(world.needs_visibility.len(), 216 - 50);
    let second = world.calc_visibility();
    assert_eq!(second.len(), 14);
    assert_eq!(world.calc_visibility().len(), 0);
    for p in first.iter().chain(second.iter()) {
        assert!((1..5).contains(&p.x) && (1..5).contains(&p.y) && (1..5).contains(&p.z));
        assert!(!first.contains(p) || !second.contains(p));
    }
    // The same sixty-four chunks stand in a complete block of chunks.
    let lit = world.calc_border_ao();
    assert_eq!(lit.len(), MAX_PROCESS);
    world.activate();
    assert_eq!(world.dimension.chunk_activations.len(), 50);
    assert_eq!(world.calc_border_ao().len(), 14);
    assert_eq!(world.calc_border_ao().len(), 0);
    world.activate();
    assert_eq!(world.dimension.chunk_activations.len(), 64);
    assert_eq!(world.needs_ao.len(), 216 - 64);
    assert_eq!(MAX_PROCESS, 50);
}

#[test]
fn an_update_replaces_the_blocks_of_an_active_chunk() {
    let mut world = ClientWorld::new();
    let p = ChunkPosition::new(2, 2, 2);
    assert!(world.apply_activation(p, 3, &air(3)));
    let bytes = one_stone(3, 21);
    assert!(world.recv_chunk_updates(p, &bytes));
    let chunk = world.dimension.chunk_at(p).unwrap();
    // The cell that changed and the six cells around it are derived anew:
    // a face towards the stone is hidden, a face inside the chunk shows, and
    // a face on the chunk's border is kept.
    for i in 0..64usize {
        assert_eq!(chunk.get(i).block, if i == 21 { Block::Stone } else { Block::Air });
        let mask = match i {
            21 => 0b111111,
            20 => 0b111100,
            22 => 0b111110,
            17 => 0b110011,
            25 => 0b111011,
            5 => 0b001111,
            37 => 0b101111,
            _ => 0,
        };
        assert_eq!(chunk.get(i).visible_mask, mask);
        if [21usize, 22, 25, 37].contains(&i) {
            assert_eq!(chunk.get(i).ambient, calc_ambient_inside_chunk(chunk, i));
        } else {
            assert_eq!(chunk.get(i).ambient, [0; 6]);
        }
    }
    assert_eq!(chunk.neighbor_direction_visibility_mask, 0);
    assert_eq!(chunk.neighbor_direction_ao_mask, 0);
    assert!(is_active(&world, p));
    assert!(world.dimension.chunk_updated.contains(p));
    assert_eq!(world.dimension.chunk_updated.len(), 1);
    // The same blocks again touch no cell.
    let before = cells(&world, p);
    assert!(world.recv_chunk_updates(p, &bytes));
    assert_eq!(cells(&world, p), before);
    // Taking the stone away shows the faces again; what lies on the border
    // stays as it was.
    assert!(world.recv_chunk_updates(p, &air(3)));
    let chunk = world.dimension.chunk_at(p).unwrap();
    assert_eq!(chunk.get(21).visible_mask, 0b111111);
    assert_eq!(chunk.get(20).visible_mask, 0b111110);
    assert_eq!(chunk.get(22).visible_mask, 0b111111);
    assert_eq!(chunk.get(5).visible_mask, 0b101111);
    assert_eq!(chunk.get(0).visible_mask, 0);
    assert_eq!(chunk.get(21).ambient, calc_ambient_inside_chunk(chunk, 21));
}

#[test]
fn an_update_for_a_chunk_that_is_not_active_is_dropped() {
    let mut world = ClientWorld::new();
    let p = ChunkPosition::new(2, 2, 2);
    assert!(!world.recv_chunk_updates(p, &air(3)));
    assert!(world.apply_activation(p, 3, &one_stone(3, 0)));
    assert!(is_stasis(&world, p));
    assert!(!world.recv_chunk_updates(p, &air(3)));
    assert_eq!(world.dimension.chunk_at(p).unwrap().get(0).block, Block::Stone);
    assert_eq!(world.dimension.chunk_updated.len(), 0);
    let q = ChunkPosition::new(0, 0, 0);
    assert!(world.apply_activation(q, 3, &air(3)));
    // Too few blocks, a broken run.
    assert!(!world.recv_chunk_updates(q, &[0, 0, 0, 63, 0, 1]));
    assert!(!world.recv_chunk_updates(q, &[0, 0, 0, 64, 0]));
    assert_eq!(world.dimension.chunk_updated.len(), 0);
}

#[test]
fn a_fixed_tick_runs_the_pipeline_in_order() {
    let mut world = ClientWorld::new();
    let p = ChunkPosition::new(0, 0, 0);
    let q = ChunkPosition::new(1, 0, 0);
    let activations = vec![
        ChunkActivated { position: p, lod: 3, bytes: air(3) },
        ChunkActivated { position: q, lod: 3, bytes: vec![1, 2, 3] },
    ];
    let requests = world.fixed_tick(&activations, Vec::new(), &Vec::new());
    // The message that cannot be read is dropped, the other one handed out.
    assert_eq!(requests.len(), 1);
    assert!(matches!(world.dimension.chunks.get(p), Some(ChunkState::Generating)));
    assert!(world.dimension.chunks.get(q).is_none());
    let responses: Vec<_> = requests.into_iter().map(internal).collect();
    // The update comes with the chunk: the chunk is put in first.
    let updates = vec![ChunkUpdated { position: p, bytes: one_stone(3, 4) }];
    let none = world.fixed_tick(&Vec::new(), responses, &updates);
    assert!(none.is_empty());
    assert!(is_active(&world, p));
    assert_eq!(world.dimension.chunk_at(p).unwrap().get(4).block, Block::Stone);
    assert!(world.dimension.chunk_updated.contains(p));
}

#[test]
fn resolving_faces_leaves_brightness_alone() {
    let mut world = ClientWorld::new();
    let stone = one_stone(3, at(3, 3, 1, 1));
    for z in -1..=1isize {
        for y in -1..=1isize {
            for x in -1..=1isize {
                assert!(world.apply_activation(ChunkPosition::new(x, y, z), 3, &stone));
            }
        }
    }
    let center = ChunkPosition::new(0, 0, 0);
    let before = cells(&world, center);
    assert!(world.is_visibility_ready(center));
    assert!(!world.is_visibility_ready(ChunkPosition::new(1, 0, 0)));
    world.resolve_visibility_at(center);
    let after = cells(&world, center);
    for i in 0..64usize {
        assert_eq!(after[i].block, before[i].block);
        assert_eq!(after[i].ambient, before[i].ambient);
    }
    // Every chunk holds stone at its face towards +x, so both faces along x
    // changed masks; for brightness nothing counts as resolved.
    let chunk = world.dimension.chunk_at(center).unwrap();
    assert_eq!(chunk.neighbor_direction_visibility_mask, 63);
    assert_eq!(chunk.neighbor_direction_ao_mask, 0);
    assert!(!world.needs_visibility.contains(center));
    assert!(world.needs_ao.contains(center));
}

#[test]
fn six_neighbours_are_not_enough_to_become_active() {
    let mut world = ClientWorld::new();
    let center = ChunkPosition::new(0, 0, 0);
    // Stone fills every chunk, so every shared face changes masks.
    let stone = encode(&vec![Block::Stone; 64]);
    assert!(world.apply_activation(center, 3, &stone));
    for (x, y, z) in [(-1, 0, 0), (1, 0, 0), (0, -1, 0), (0, 1, 0), (0, 0, -1), (0, 0, 1)] {
        assert!(world.apply_activation(ChunkPosition::new(x, y, z), 3, &stone));
    }
    for _ in 0..3 {
        tick(&mut world);
        assert!(is_stasis(&world, center));
        assert!(!world.needs_visibility.contains(center));
        assert!(world.needs_ao.contains(center));
        let chunk = world.dimension.chunk_at(center).unwrap();
        assert_eq!(chunk.neighbor_direction_visibility_mask, 63);
        assert_eq!(chunk.neighbor_direction_ao_mask, 0);
        assert!((0..64usize).all(|i| chunk.get(i).visible_mask & 63 == 0));
        assert_eq!(world.dimension.chunk_activations.len(), 0);
    }
}

fn block_of_chunks(middle_twice: bool, late: bool) -> ClientWorld {
    let mut world = ClientWorld::new();
    let center = ChunkPosition::new(0, 0, 0);
    let mut blocks = vec![Block::Air; 64];
    blocks[at(3, 3, 1, 1)] = Block::Stone;
    blocks[at(3, 0, 2, 2)] = Block::Stone;
    blocks[at(3, 1, 1, 0)] = Block::Stone;
    let bytes = encode(&blocks);
    for z in -1..=1isize {
        for y in -1..=1isize {
            for x in -1..=1isize {
                let p = ChunkPosition::new(x, y, z);
                assert!(world.apply_activation(p, 3, &bytes));
                if p == center && middle_twice && !late {
                    assert!(world.apply_activation(p, 3, &bytes));
                }
            }
        }
    }
    for _ in 0..3 {
        tick(&mut world);
    }
    if middle_twice && late {
        assert!(is_active(&world, center));
        assert!(world.apply_activation(center, 3, &bytes));
        assert!(is_stasis(&world, center));
        for _ in 0..3 {
            tick(&mut world);
        }
    }
    world
}

#[test]
fn a_repeated_activation_ends_in_the_same_world() {
    let once = block_of_chunks(false, false);
    for (twice, late) in [(true, false), (true, true)] {
        let other = block_of_chunks(twice, late);
        assert_eq!(other.dimension.chunks.len(), once.dimension.chunks.len());
        for p in once.dimension.chunks.keys() {
            assert_eq!(is_active(&other, p), is_active(&once, p));
            assert_eq!(is_stasis(&other, p), is_stasis(&once, p));
            assert_eq!(cells(&other, p), cells(&once, p));
            let a = once.dimension.chunk_at(p).unwrap();
            let b = other.dimension.chunk_at(p).unwrap();
            assert_eq!(a.lod, b.lod);
            assert_eq!(a.neighbor_direction_visibility_mask, b.neighbor_direction_visibility_mask);
            assert_eq!(a.neighbor_direction_ao_mask, b.neighbor_direction_ao_mask);
            assert_eq!(other.needs_visibility.contains(p), once.needs_visibility.contains(p));
            assert_eq!(other.needs_ao.contains(p), once.needs_ao.contains(p));
        }
    }
    // Only the chunk in the middle stands in a complete block of chunks.
    assert!(is_active(&once, ChunkPosition::new(0, 0, 0)));
    assert_eq!(once.dimension.chunk_activations.len(), 1);
}

#[test]
fn every_active_chunk_with_a_block_is_resolved() {
    let mut world = ClientWorld::new();
    let stone = one_stone(3, at(3, 0, 0, 0));
    for z in 0..4isize {
        for y in 0..4isize {
            for x in 0..4isize {
                let bytes = if (x + y + z) % 3 == 0 { air(3) } else { stone.clone() };
                assert!(world.apply_activation(ChunkPosition::new(x, y, z), 3, &bytes));
            }
        }
    }
    for _ in 0..4 {
        tick(&mut world);
        for p in world.dimension.chunks.keys() {
            let chunk = world.dimension.chunk_at(p).unwrap();
            let holds_block = (0..chunk.size()).any(|i| chunk.get(i).block != Block::Air);
            if is_active(&world, p) && holds_block {
                assert_eq!(chunk.neighbor_direction_visibility_mask, 63);
                assert_eq!(chunk.neighbor_direction_ao_mask, 63);
            }
        }
    }
    // The chunks of air are active from the start; of the others those that
    // stand in a complete block of chunks.
    let active = world.dimension.chunks.keys().into_iter().filter(|p| is_active(&world, *p)).count();
    assert!(active > 22);
}
