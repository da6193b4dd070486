use std::collections::VecDeque;

use xenotech::util::rle::{decode, encode};
use xenotech::world::block::Block;
use xenotech::world::chunk::{Chunk, ServerChunk, TileTransition};
use xenotech::world::client::ClientWorld;
use xenotech::world::dimension::{ChunkState, Dimension};
use xenotech::world::entity::{can_walk, Change, Loader};
use xenotech::world::generation::{gen, noise_cell, noise_index, noise_sample_position, NoiseCell};
use xenotech::world::position::{ChunkPosition, LocalPosition, WorldPosition};
use xenotech::world::raycast::{drive, start, Descriptor, Mask, Probe, Ray};
use xenotech::world::server::{
    blocks_of, encode_chunk, shell_find, shell_offset, GenReq, GenResp, ServerWorld,
    MAX_NEEDED_PER_TICK,
};
use xenotech::world::structure::linearize;

fn at(x: usize, y: usize, z: usize) -> usize {
    linearize(LocalPosition::new(32, 32, 32), LocalPosition::new(x, y, z))
}

/// Stone below z = 5.
fn floor() -> Vec<bool> {
    (0..32768usize).map(|i| i / 1024 < 5).collect()
}

fn norm(p: ChunkPosition) -> isize {
    p.x.abs().max(p.y.abs()).max(p.z.abs())
}

fn falling_ray(world: &ServerWorld, x: isize, y: isize) -> Ray {
    let mut ray = start(Descriptor {
        origin: WorldPosition::new(x, y, 12),
        ray_step: WorldPosition::new(1, 1, -1),
        minimum: WorldPosition::new(isize::MIN, isize::MIN, isize::MIN),
        maximum: WorldPosition::new(isize::MAX, isize::MAX, isize::MAX),
    });
    let probe = Probe { mask: Mask { x: false, y: false, z: true }, beyond_max_distance: false };
    while drive(&mut ray, &world.dimension.chunks, probe) {}
    ray
}

fn world_with_floor() -> ServerWorld {
    let mut world = ServerWorld::new();
    let origin = ChunkPosition::new(0, 0, 0);
    world.apply_generated(GenResp { position: origin, chunk: gen(origin, 0, &floor()), lod: 0 });
    world.activate();
    world
}

#[test]
fn the_walk_through_the_shells_starts_at_the_origin() {
    assert_eq!(shell_offset(3, 0), Some(ChunkPosition::new(0, 0, 0)));
    assert_eq!(shell_offset(3, 1), Some(ChunkPosition::new(-1, -1, -1)));
    assert_eq!(shell_offset(3, 2), Some(ChunkPosition::new(-1, -1, 0)));
    assert_eq!(shell_offset(3, 13), Some(ChunkPosition::new(0, 0, -1)));
    assert_eq!(shell_offset(3, 14), Some(ChunkPosition::new(0, 0, 1)));
    assert_eq!(shell_offset(3, 26), Some(ChunkPosition::new(1, 1, 1)));
    assert_eq!(shell_offset(3, 27), Some(ChunkPosition::new(-2, -2, -2)));
    assert_eq!(shell_offset(3, 124), Some(ChunkPosition::new(2, 2, 2)));
    assert_eq!(shell_offset(3, 125), Some(ChunkPosition::new(-3, -3, -3)));
    assert_eq!(shell_offset(3, 342), Some(ChunkPosition::new(3, 3, 3)));
    assert_eq!(shell_find(3, 0), Some((0, 0)));
    assert_eq!(shell_find(3, 1), Some((1, 0)));
    assert_eq!(shell_find(3, 14), Some((1, 14)));
    assert_eq!(shell_find(3, 124), Some((2, 124)));
    assert_eq!(shell_find(3, 125), Some((3, 0)));
    assert_eq!(shell_find(3, 342), Some((3, 342)));
}

#[test]
fn the_walk_ends_with_the_shell_at_the_distance() {
    assert_eq!(shell_find(3, 343), None);
    assert_eq!(shell_offset(3, 343), None);
    assert_eq!(shell_offset(3, usize::MAX), None);
    assert_eq!(shell_find(1, 0), Some((0, 0)));
    assert_eq!(shell_find(1, 1), Some((1, 0)));
    assert_eq!(shell_find(1, 26), Some((1, 26)));
    assert_eq!(shell_find(1, 27), None);
    assert_eq!(shell_find(0, 0), Some((0, 0)));
    assert_eq!(shell_offset(0, 0), Some(ChunkPosition::new(0, 0, 0)));
    assert_eq!(shell_find(0, 1), None);
    assert_eq!(shell_offset(0, 1), None);
}

#[test]
fn the_walk_goes_nearest_first_and_visits_every_offset_once() {
    let mut seen = Vec::new();
    let mut last = 0;
    for i in 0..729usize {
        let p = shell_offset(4, i).unwrap();
        assert!(norm(p) >= last);
        last = norm(p);
        assert!(!seen.contains(&p));
        seen.push(p);
    }
    assert_eq!(last, 4);
    assert_eq!(shell_offset(4, 729), None);
    for x in -4..=4isize {
        for y in -4..=4isize {
            for z in -4..=4isize {
                assert!(seen.contains(&ChunkPosition::new(x, y, z)));
            }
        }
    }
}

#[test]
fn a_walk_needs_a_cube_that_the_machine_can_count() {
    assert!(can_walk(0));
    assert!(can_walk(8));
    assert!(can_walk(512));
    assert!(can_walk(100_000));
    assert!(!can_walk(usize::MAX));
    assert!(!can_walk(usize::MAX / 2));
    assert!(!can_walk(usize::MAX / 2 - 1));
    assert!(!can_walk(1usize << (usize::BITS / 2)));
}

#[test]
fn a_loader_asks_for_the_chunks_around_its_entity() {
    let mut world = ServerWorld::new();
    let mut loader = Loader::new(2);
    let center = ChunkPosition::new(10, -4, 0);
    world.load(&mut loader, center, false);
    assert!(world.load_chunk_order.is_empty());
    assert!(!loader.recalculate_needed_chunks);
    world.load(&mut loader, center, true);
    // The walk holds every offset up to the distance once and was found at
    // its end in the same tick.
    assert!(!loader.recalculate_needed_chunks);
    assert_eq!(loader.next_needed, 125);
    assert_eq!(world.load_chunk_order.len(), 125);
    assert_eq!(world.load_chunk_order[0], center);
    assert_eq!(world.load_chunk_order[1], ChunkPosition::new(9, -5, -1));
    assert_eq!(world.load_chunk_order[26], ChunkPosition::new(11, -3, 1));
    assert_eq!(world.load_chunk_order[27], ChunkPosition::new(8, -6, -2));
    assert_eq!(world.load_chunk_order[124], ChunkPosition::new(12, -2, 2));
    for (k, p) in world.load_chunk_order.iter().enumerate() {
        assert!(norm(ChunkPosition::new(p.x - 10, p.y + 4, p.z)) <= 2);
        assert!(!world.load_chunk_order.iter().take(k).any(|q| q == p));
    }
    // A second walk finds every position waiting in the list already.
    world.load(&mut loader, center, true);
    assert!(!loader.recalculate_needed_chunks);
    assert_eq!(loader.next_needed, 125);
    assert_eq!(world.load_chunk_order.len(), 125);
}

#[test]
fn the_centre_is_asked_for_once() {
    let mut world = ServerWorld::new();
    let mut loader = Loader::new(1);
    let center = ChunkPosition::new(0, 0, 0);
    world.load(&mut loader, center, true);
    assert_eq!(world.load_chunk_order.len(), 27);
    assert_eq!(world.load_chunk_order.iter().filter(|p| **p == center).count(), 1);
    let requests = world.start_generation();
    assert_eq!(requests.len(), 27);
    assert_eq!(requests.iter().filter(|r| r.position == center).count(), 1);
    assert!(requests.iter().all(|r| r.lod == 0));
    for pair in requests.windows(2) {
        assert!(norm(pair[0].position) <= norm(pair[1].position));
    }
    assert_eq!(world.dimension.chunks.len(), 27);
    // Every position is being generated now: a new walk asks for nothing.
    world.load(&mut loader, center, true);
    assert!(world.load_chunk_order.is_empty());
    assert!(world.start_generation().is_empty());
}

#[test]
fn two_loaders_share_what_they_ask_for() {
    let mut world = ServerWorld::new();
    let mut first = Loader::new(1);
    let mut second = Loader::new(1);
    world.load(&mut first, ChunkPosition::new(0, 0, 0), true);
    world.load(&mut second, ChunkPosition::new(1, 0, 0), true);
    // The two cubes share eighteen positions.
    assert_eq!(world.load_chunk_order.len(), 36);
    let requests = world.start_generation();
    assert_eq!(requests.len(), 36);
    for (k, r) in requests.iter().enumerate() {
        assert!(!requests[..k].contains(r));
    }
}

#[test]
fn a_walk_is_spread_over_ticks() {
    let mut world = ServerWorld::new();
    let mut loader = Loader::new(5);
    let center = ChunkPosition::new(0, 0, 0);
    world.load(&mut loader, center, true);
    assert!(loader.recalculate_needed_chunks);
    assert_eq!(loader.next_needed, MAX_NEEDED_PER_TICK);
    assert_eq!(world.load_chunk_order.len(), 512);
    // Moving on while the walk is under way does not start it anew.
    world.load(&mut loader, center, true);
    assert_eq!(loader.next_needed, 1024);
    assert!(loader.recalculate_needed_chunks);
    world.load(&mut loader, center, false);
    assert_eq!(loader.next_needed, 1331);
    assert!(!loader.recalculate_needed_chunks);
    assert_eq!(world.load_chunk_order.len(), 1331);
    world.load(&mut loader, center, false);
    assert_eq!(loader.next_needed, 1331);
    assert_eq!(world.load_chunk_order.len(), 1331);
    assert_eq!(norm(world.load_chunk_order[1330]), 5);
}

#[test]
fn a_loader_skips_the_chunks_that_are_there() {
    let mut world = world_with_floor();
    world.dimension.chunks.insert(ChunkPosition::new(0, 0, 1), ChunkState::Generating);
    let mut loader = Loader::new(2);
    world.load(&mut loader, ChunkPosition::new(0, 0, 0), true);
    assert_eq!(world.load_chunk_order.len(), 123);
    assert!(!world.load_chunk_order.contains(&ChunkPosition::new(0, 0, 0)));
    assert!(!world.load_chunk_order.contains(&ChunkPosition::new(0, 0, 1)));
    assert!(world.load_chunk_order.contains(&ChunkPosition::new(2, -2, 2)));
}

#[test]
fn generation_starts_for_what_the_loaders_asked_for() {
    let mut world = ServerWorld::new();
    let a = ChunkPosition::new(1, 0, 0);
    let b = ChunkPosition::new(2, 0, 0);
    let c = ChunkPosition::new(3, 0, 0);
    // The chunk at `c` arrived while its position waited in the list.
    world.apply_generated(GenResp { position: c, chunk: gen(c, 0, &floor()), lod: 0 });
    world.load_chunk_order = VecDeque::from(vec![a, c, b]);
    let requests = world.start_generation();
    assert_eq!(requests, vec![GenReq { position: a, lod: 0 }, GenReq { position: b, lod: 0 }]);
    assert!(world.load_chunk_order.is_empty());
    assert_eq!(world.dimension.chunks.len(), 3);
    assert!(matches!(world.dimension.chunks.get(a), Some(ChunkState::Generating)));
    assert!(matches!(world.dimension.chunks.get(b), Some(ChunkState::Generating)));
    assert!(matches!(world.dimension.chunks.get(c), Some(ChunkState::Stasis { .. })));
}

#[test]
fn edits_that_waited_are_written_when_the_chunk_comes() {
    let mut world = world_with_floor();
    let (activated, _) = world.chunk_activations();
    world.chunk_updates(&activated);
    let q = ChunkPosition::new(1, 0, 0);
    let r = ChunkPosition::new(0, 2, 0);
    world.load_chunk_order = VecDeque::from(vec![q]);
    world.start_generation();
    let cell = LocalPosition::new(3, 4, 20);
    let other = LocalPosition::new(0, 0, 31);
    world.dimension.set_blocks(&[
        (q, cell, Block::Wire),
        (r, cell, Block::Stone),
        (q, other, Block::Stone),
        (q, cell, Block::Machine),
        (q, LocalPosition::new(32, 0, 0), Block::Stone),
    ]);
    assert_eq!(world.dimension.blocks_buffer.len(), 5);
    assert!(!world.dimension.chunk_updated.contains(q));
    world.apply_generated(GenResp { position: q, chunk: gen(q, 0, &floor()), lod: 0 });
    // The edits for the chunk were written in the order in which they came
    // and have left the buffer; the edit for another chunk still waits.
    assert_eq!(world.dimension.blocks_buffer, vec![(r, cell, Block::Stone)]);
    assert!(world.dimension.chunk_updated.contains(q));
    assert!(matches!(world.dimension.chunks.get(q), Some(ChunkState::Stasis { .. })));
    let chunk = world.dimension.chunk_at(q).unwrap();
    assert_eq!(chunk.block_at(at(3, 4, 20)), Block::Machine);
    assert_eq!(chunk.block_at(at(0, 0, 31)), Block::Stone);
    assert_eq!(chunk.tile_at(at(3, 4, 20)), Some(1));
    for i in 0..32768usize {
        if i != at(3, 4, 20) && i != at(0, 0, 31) {
            assert_eq!(chunk.block_at(i), if i < 5 * 1024 { Block::Stone } else { Block::Air });
        }
    }
    // The chunk goes out whole when it is activated.
    world.activate();
    let (changed, announced, updated) = world.fixed_tick(Vec::new());
    assert!(changed.is_empty());
    assert_eq!(announced.len(), 1);
    assert_eq!(announced[0].position, q);
    assert_eq!(decode(announced[0].bytes.clone())[at(3, 4, 20)], Block::Machine);
    assert!(updated.is_empty());
}

#[test]
fn a_tick_sends_what_is_owed() {
    let mut world = world_with_floor();
    let p = ChunkPosition::new(0, 0, 0);
    let q = ChunkPosition::new(0, 0, 1);
    // The first tick announces the chunk that was activated.
    let (_, announced, updated) = world.fixed_tick(Vec::new());
    assert_eq!(announced.len(), 1);
    assert_eq!(announced[0].position, p);
    assert_eq!(announced[0].lod, 0);
    assert!(updated.is_empty());
    // A tick with nothing to do sends nothing.
    let (_, announced, updated) = world.fixed_tick(Vec::new());
    assert!(announced.is_empty() && updated.is_empty());
    // A change to an active chunk is sent as an update; a chunk that came
    // and was activated is announced.
    world.apply_generated(GenResp { position: q, chunk: gen(q, 2, &vec![false; 512]), lod: 2 });
    world.activate();
    let ray = falling_ray(&world, 2, 3);
    let (changed, announced, updated) =
        world.fixed_tick(vec![(Change::Place(Block::Stone), ray)]);
    assert_eq!(changed, vec![true]);
    assert_eq!(announced.len(), 1);
    assert_eq!(announced[0].position, q);
    assert_eq!(announced[0].lod, 2);
    assert_eq!(decode(announced[0].bytes.clone()), vec![Block::Air; 512]);
    assert_eq!(updated.len(), 1);
    assert_eq!(updated[0].position, p);
    assert_eq!(decode(updated[0].bytes.clone())[at(2, 3, 5)], Block::Stone);
    assert_eq!(world.dimension.chunk_updated.len(), 0);
    assert_eq!(world.dimension.chunk_activations.len(), 0);
}

#[test]
fn gen_puts_stone_where_the_density_is_positive() {
    let chunk = gen(ChunkPosition::new(3, 3, 3), 0, &floor());
    for i in 0..32768usize {
        assert_eq!(chunk.block_at(i), if i < 5 * 1024 { Block::Stone } else { Block::Air });
        assert_eq!(chunk.get(i).rotation, 0);
        assert_eq!(chunk.tile_at(i), None);
    }
    assert_eq!(chunk.lod_level(), 0);
    // A coarser level has fewer cells.
    let coarse = gen(ChunkPosition::new(0, 0, 0), 3, &vec![true; 64]);
    assert_eq!(coarse.lod_level(), 3);
    assert_eq!(coarse.size(), 64);
    assert!((0..64usize).all(|i| coarse.block_at(i) == Block::Stone));
    for (lod, cells) in [(1usize, 4096usize), (2, 512), (4, 8), (5, 1)] {
        let solid: Vec<bool> = (0..cells).map(|i| i % 2 == 0).collect();
        let chunk = gen(ChunkPosition::new(1, 2, 3), lod, &solid);
        assert_eq!(chunk.lod_level(), lod);
        assert_eq!(chunk.size(), cells);
        assert_eq!(blocks_of(&chunk).len(), cells);
        for i in 0..cells {
            assert_eq!(chunk.block_at(i), if i % 2 == 0 { Block::Stone } else { Block::Air });
        }
    }
    // A level beyond the coarsest holds no cell.
    let none = gen(ChunkPosition::new(0, 0, 0), 6, &[]);
    assert_eq!(none.lod_level(), 5);
    assert_eq!(none.size(), 1);
    assert_eq!(none.block_at(0), Block::Air);
}

#[test]
fn generating_a_chunk_twice_gives_the_same_bytes() {
    let solid: Vec<bool> = (0..32768usize).map(|i| (i * 2654435761usize) % 7 < 3).collect();
    let first = gen(ChunkPosition::new(0, 0, 0), 0, &solid);
    let second = gen(ChunkPosition::new(0, 0, 0), 0, &solid);
    assert_eq!(encode_chunk(&first), encode_chunk(&second));
    assert_eq!(blocks_of(&first), blocks_of(&second));
    assert_eq!(decode(encode_chunk(&first)), blocks_of(&first));
}

#[test]
fn the_density_lattice_has_a_sample_every_eight_blocks() {
    assert_eq!(noise_index(0, 0, 0), 0);
    assert_eq!(noise_index(4, 0, 0), 4);
    assert_eq!(noise_index(0, 1, 0), 5);
    assert_eq!(noise_index(0, 0, 1), 25);
    assert_eq!(noise_index(4, 4, 4), 124);
    assert_eq!(
        noise_cell(LocalPosition::new(9, 0, 31), 0),
        NoiseCell { corners: [76, 77, 81, 82, 101, 102, 106, 107], weights: [1, 0, 7] }
    );
    assert_eq!(
        noise_cell(LocalPosition::new(0, 0, 0), 0),
        NoiseCell { corners: [0, 1, 5, 6, 25, 26, 30, 31], weights: [0, 0, 0] }
    );
    // At a coarser level the block's place is scaled up first.
    assert_eq!(
        noise_cell(LocalPosition::new(3, 1, 0), 2),
        NoiseCell { corners: [1, 2, 6, 7, 26, 27, 31, 32], weights: [4, 4, 0] }
    );
    assert_eq!(
        noise_sample_position(ChunkPosition::new(1, -1, 0), 0, 4, 2),
        Some(WorldPosition::new(24, -8, 8))
    );
    assert_eq!(noise_sample_position(ChunkPosition::new(isize::MAX / 32, 0, 0), 4, 0, 0), Some(WorldPosition::new(isize::MAX / 32 * 32 + 24, -8, -8)));
    assert_eq!(noise_sample_position(ChunkPosition::new(isize::MAX / 32 + 1, 0, 0), 0, 0, 0), Some(WorldPosition::new(isize::MAX - 7, -8, -8)));
    assert_eq!(noise_sample_position(ChunkPosition::new(isize::MAX / 32 + 1, 0, 0), 1, 0, 0), None);
    assert_eq!(noise_sample_position(ChunkPosition::new(0, isize::MIN / 32, 0), 0, 0, 0), None);
}

#[test]
fn a_generated_chunk_is_activated_and_announced() {
    let mut world = ServerWorld::new();
    let p = ChunkPosition::new(0, 0, 0);
    world.load_chunk_order = VecDeque::from(vec![p]);
    world.start_generation();
    world.apply_generated(GenResp { position: p, chunk: gen(p, 0, &floor()), lod: 0 });
    assert!(matches!(world.dimension.chunks.get(p), Some(ChunkState::Stasis { .. })));
    assert!(world.dimension.chunk_updated.contains(p));
    world.activate();
    assert!(matches!(world.dimension.chunks.get(p), Some(ChunkState::Active { .. })));
    let (activated, messages) = world.chunk_activations();
    assert_eq!(activated, vec![p]);
    assert_eq!(messages.len(), 1);
    assert_eq!(messages[0].position, p);
    assert_eq!(messages[0].lod, 0);
    assert_eq!(messages[0].bytes, vec![0, 0, 20, 0, 0, 1, 0, 0, 108, 0, 0, 0]);
    assert_eq!(world.dimension.chunk_activations.len(), 0);
    // A chunk activated in this tick went out whole; it is not sent again as
    // an update.
    assert!(world.chunk_updates(&activated).is_empty());
    assert_eq!(world.dimension.chunk_updated.len(), 0);
    assert!(world.chunk_activations().1.is_empty());
}

#[test]
fn a_new_client_gets_every_active_chunk() {
    let mut world = world_with_floor();
    let q = ChunkPosition::new(5, 5, 5);
    world.apply_generated(GenResp { position: q, chunk: gen(q, 0, &vec![false; 32768]), lod: 0 });
    world.dimension.chunks.insert(ChunkPosition::new(9, 9, 9), ChunkState::Generating);
    let before = world.snapshot();
    assert_eq!(before.len(), 1);
    assert_eq!(before[0].position, ChunkPosition::new(0, 0, 0));
    world.activate();
    let after = world.snapshot();
    assert_eq!(after.len(), 2);
    assert_eq!(after[1].position, q);
    assert_eq!(after[1].bytes, vec![0, 0, 128, 0, 0, 0]);
    assert!(world.activation_message(ChunkPosition::new(9, 9, 9)).is_none());
    assert!(world.activation_message(ChunkPosition::new(1, 1, 1)).is_none());
}

#[test]
fn a_placed_block_reaches_a_client_at_the_cell_the_ray_found() {
    let mut server = world_with_floor();
    let p = ChunkPosition::new(0, 0, 0);
    let (activated, announced) = server.chunk_activations();
    server.chunk_updates(&activated);
    // The client holds the chunk as the server announced it.
    let mut client = ClientWorld::new();
    assert!(client.apply_activation(p, 0, &announced[0].bytes));
    let held = match client.dimension.chunks.remove(p) {
        Some(ChunkState::Stasis { chunk }) => chunk,
        _ => panic!("the client holds no chunk"),
    };
    client.dimension.chunks.insert(p, ChunkState::Active { chunk: held });
    // A player looks straight down at the floor and places stone.
    let ray = falling_ray(&server, 7, 9);
    let applied = server.make_changes(vec![(Change::Place(Block::Stone), ray)]);
    assert_eq!(applied, vec![true]);
    assert_eq!(server.dimension.chunk_at(p).unwrap().block_at(at(7, 9, 5)), Block::Stone);
    assert_eq!(server.dimension.chunk_at(p).unwrap().block_at(at(7, 9, 6)), Block::Air);
    let updates = server.chunk_updates(&Vec::new());
    assert_eq!(updates.len(), 1);
    assert_eq!(updates[0].position, p);
    assert!(client.recv_chunk_updates(updates[0].position, &updates[0].bytes));
    let shown = client.dimension.chunk_at(p).unwrap();
    assert_eq!(shown.get(at(7, 9, 5)).block, Block::Stone);
    for i in 0..32768usize {
        let expected = if i < 5 * 1024 || i == at(7, 9, 5) { Block::Stone } else { Block::Air };
        assert_eq!(shown.get(i).block, expected);
    }
}

#[test]
fn breaking_writes_into_the_cell_that_was_hit() {
    let mut world = world_with_floor();
    let p = ChunkPosition::new(0, 0, 0);
    let first = falling_ray(&world, 1, 1);
    let second = falling_ray(&world, 1, 1);
    let missing = start(Descriptor {
        origin: WorldPosition::new(0, 0, 100),
        ray_step: WorldPosition::new(1, 1, 1),
        minimum: WorldPosition::new(0, 0, 0),
        maximum: WorldPosition::new(0, 0, 0),
    });
    let applied = world.make_changes(vec![
        (Change::Break(Block::Air), first),
        (Change::Place(Block::Wire), missing),
        (Change::Place(Block::Machine), second),
    ]);
    assert_eq!(applied, vec![true, false, true]);
    let chunk = world.dimension.chunk_at(p).unwrap();
    assert_eq!(chunk.block_at(at(1, 1, 4)), Block::Air);
    assert_eq!(chunk.block_at(at(1, 1, 5)), Block::Machine);
    assert_eq!(chunk.tile_at(at(1, 1, 5)), Some(0));
    assert_eq!(chunk.cell_of(0), Some(at(1, 1, 5)));
    assert!(world.dimension.chunk_updated.contains(p));
}

#[test]
fn blocks_for_a_chunk_without_data_wait() {
    let mut dimension: Dimension<ServerChunk> = Dimension::new();
    let here = ChunkPosition::new(0, 0, 0);
    let there = ChunkPosition::new(1, 0, 0);
    dimension.chunks.insert(here, ChunkState::Stasis { chunk: ServerChunk::new(0) });
    dimension.chunks.insert(there, ChunkState::Generating);
    let edits = [
        (here, LocalPosition::new(1, 2, 3), Block::Stone),
        (there, LocalPosition::new(0, 0, 0), Block::Wire),
        (here, LocalPosition::new(1, 2, 3), Block::Source),
        (ChunkPosition::new(7, 7, 7), LocalPosition::new(0, 0, 0), Block::Stone),
        (there, LocalPosition::new(0, 0, 0), Block::Wire),
        (here, LocalPosition::new(32, 0, 0), Block::Stone),
    ];
    dimension.set_blocks(&edits);
    let chunk = dimension.chunk_at(here).unwrap();
    assert_eq!(chunk.block_at(at(1, 2, 3)), Block::Source);
    assert_eq!(chunk.tile_at(at(1, 2, 3)), Some(0));
    assert_eq!((0..32768usize).filter(|i| chunk.block_at(*i) != Block::Air).count(), 1);
    assert_eq!(dimension.chunk_updated.to_vec(), vec![here]);
    assert_eq!(dimension.blocks_buffer, vec![edits[1], edits[3]]);
    assert!(matches!(dimension.chunks.get(there), Some(ChunkState::Generating)));
    assert_eq!(dimension.locate(WorldPosition::new(-1, 0, 0)), None);
    assert_eq!(
        dimension.locate(WorldPosition::new(31, 33, 0)),
        None
    );
    assert_eq!(
        dimension.locate(WorldPosition::new(31, 5, 0)),
        Some((here, LocalPosition::new(31, 5, 0)))
    );
}

#[test]
fn writing_a_block_keeps_the_tiles_in_step() {
    let mut chunk = ServerChunk::new(0);
    assert_eq!(chunk.put_block(10, Block::Stone), None);
    assert_eq!(chunk.put_block(10, Block::Machine), Some(TileTransition::Spawned(0)));
    assert_eq!(chunk.put_block(10, Block::Machine), None);
    assert_eq!(chunk.put_block(11, Block::Wire), Some(TileTransition::Spawned(1)));
    assert_eq!(chunk.put_block(10, Block::Source), Some(TileTransition::Replaced { old: 0, new: 2 }));
    assert_eq!(chunk.put_block(11, Block::Air), Some(TileTransition::Despawned(1)));
    assert_eq!(chunk.tile_at(10), Some(2));
    assert_eq!(chunk.tile_at(11), None);
    assert_eq!(chunk.cell_of(2), Some(10));
    assert_eq!(chunk.cell_of(0), None);
    assert_eq!(chunk.cell_of(1), None);
    chunk.set_rotation(10, 3);
    assert_eq!(chunk.get(10).rotation, 3);
    assert_eq!(chunk.get(10).block, Block::Source);
    assert_eq!(chunk.tile_at(10), Some(2));
}

#[test]
fn encoding_a_chunk_encodes_its_blocks() {
    let chunk = gen(ChunkPosition::new(0, 0, 0), 0, &floor());
    assert_eq!(encode_chunk(&chunk), encode(&blocks_of(&chunk)));
    assert_eq!(blocks_of(&chunk).len(), 32768);
}

#[test]
fn a_fixed_tick_carries_out_changes_and_announces_chunks() {
    let mut world = world_with_floor();
    let p = ChunkPosition::new(0, 0, 0);
    // The chunk was activated before this tick: it is announced whole, and
    // the change made in this tick goes out with it.
    let ray = falling_ray(&world, 3, 3);
    let (applied, announced, updated) = world.fixed_tick(vec![(Change::Place(Block::Wire), ray)]);
    assert_eq!(applied, vec![true]);
    assert_eq!(announced.len(), 1);
    assert_eq!(announced[0].position, p);
    assert_eq!(decode(announced[0].bytes.clone())[at(3, 3, 5)], Block::Wire);
    assert!(updated.is_empty());
    // In the next tick a change goes out as an update.
    let ray = falling_ray(&world, 3, 3);
    let (applied, announced, updated) = world.fixed_tick(vec![(Change::Break(Block::Air), ray)]);
    assert_eq!(applied, vec![true]);
    assert!(announced.is_empty());
    assert_eq!(updated.len(), 1);
    assert_eq!(decode(updated[0].bytes.clone())[at(3, 3, 5)], Block::Air);
    let (applied, announced, updated) = world.fixed_tick(Vec::new());
    assert!(applied.is_empty() && announced.is_empty() && updated.is_empty());
}
