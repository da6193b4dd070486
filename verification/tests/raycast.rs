use xenotech::world::block::Block;
use xenotech::world::chunk::{Chunk, ServerChunk};
use xenotech::world::dimension::{raycast, ChunkState, Dimension};
use xenotech::world::position::{ChunkPosition, LocalPosition, WorldPosition};
use xenotech::world::raycast::{
    drive, hit, start, Descriptor, Hit, Mask, Probe, Ray, State, Target, MAX_STEPS,
};
use xenotech::world::structure::linearize;

fn floor_world() -> Dimension<ServerChunk> {
    // One chunk at the origin, stone below z = 5.
    let mut chunk = ServerChunk::new(0);
    let axis = LocalPosition::new(32, 32, 32);
    for z in 0..5usize {
        for y in 0..32usize {
            for x in 0..32usize {
                chunk.put_block(linearize(axis, LocalPosition::new(x, y, z)), Block::Stone);
            }
        }
    }
    let mut dimension: Dimension<ServerChunk> = Dimension::new();
    dimension.chunks.insert(ChunkPosition::new(0, 0, 0), ChunkState::Active { chunk });
    dimension
}

fn descriptor(origin: WorldPosition, ray_step: WorldPosition) -> Descriptor {
    Descriptor {
        origin,
        ray_step,
        minimum: WorldPosition::new(isize::MIN, isize::MIN, isize::MIN),
        maximum: WorldPosition::new(isize::MAX, isize::MAX, isize::MAX),
    }
}

const ALONG_Z: Probe = Probe { mask: Mask { x: false, y: false, z: true }, beyond_max_distance: false };
const NOWHERE: Probe = Probe { mask: Mask { x: false, y: false, z: false }, beyond_max_distance: false };

fn falling_ray(dimension: &Dimension<ServerChunk>) -> Ray {
    let mut ray = start(descriptor(WorldPosition::new(5, 6, 10), WorldPosition::new(1, 1, -1)));
    while drive(&mut ray, &dimension.chunks, ALONG_Z) {}
    ray
}

#[test]
fn start_stands_in_the_origin_cell() {
    let d = descriptor(WorldPosition::new(1, -2, 3), WorldPosition::new(-1, 1, 1));
    let ray = start(d);
    assert_eq!(ray.descriptor, d);
    assert_eq!(
        ray.state,
        State::Traversal {
            world_position: WorldPosition::new(1, -2, 3),
            mask: Mask { x: false, y: false, z: false },
            ray_step: WorldPosition::new(-1, 1, 1),
            step_count: 0,
        }
    );
}

#[test]
fn drive_steps_along_the_axes_of_the_mask() {
    let dimension = floor_world();
    let mut ray = start(descriptor(WorldPosition::new(5, 6, 10), WorldPosition::new(1, -1, -1)));
    let probe = Probe { mask: Mask { x: true, y: false, z: true }, beyond_max_distance: false };
    assert!(drive(&mut ray, &dimension.chunks, probe));
    assert_eq!(
        ray.state,
        State::Traversal {
            world_position: WorldPosition::new(6, 6, 9),
            mask: Mask { x: true, y: false, z: true },
            ray_step: WorldPosition::new(1, -1, -1),
            step_count: 1,
        }
    );
}

#[test]
fn drive_stops_at_the_first_block() {
    let dimension = floor_world();
    let ray = falling_ray(&dimension);
    match &ray.state {
        State::BlockFound(block, before) => {
            assert_eq!(*block, Block::Stone);
            assert_eq!(
                **before,
                State::Traversal {
                    world_position: WorldPosition::new(5, 6, 4),
                    mask: Mask { x: false, y: false, z: true },
                    ray_step: WorldPosition::new(1, 1, -1),
                    step_count: 6,
                }
            );
        }
        other => panic!("the ray ended as {:?}", other),
    }
}

#[test]
fn hit_reports_the_cell_and_the_cell_before_it() {
    let dimension = floor_world();
    let ray = falling_ray(&dimension);
    assert_eq!(
        hit(ray, &dimension.chunks),
        Some(Hit {
            normal: WorldPosition::new(0, 0, 1),
            back_step: WorldPosition::new(5, 6, 5),
            position: WorldPosition::new(5, 6, 4),
            chunk_position: ChunkPosition::new(0, 0, 0),
            local_position: LocalPosition::new(5, 6, 4),
            back_step_chunk_position: ChunkPosition::new(0, 0, 0),
            back_step_local_position: LocalPosition::new(5, 6, 5),
            block: Block::Stone,
        })
    );
}

#[test]
fn raycast_picks_the_cell_for_the_target() {
    let dimension = floor_world();
    assert_eq!(
        raycast(&dimension, Target::Position, falling_ray(&dimension)),
        Some((ChunkPosition::new(0, 0, 0), LocalPosition::new(5, 6, 4)))
    );
    assert_eq!(
        raycast(&dimension, Target::Backstep, falling_ray(&dimension)),
        Some((ChunkPosition::new(0, 0, 0), LocalPosition::new(5, 6, 5)))
    );
}

#[test]
fn a_ray_that_starts_in_a_block_hits_it_at_once() {
    let dimension = floor_world();
    let mut ray = start(descriptor(WorldPosition::new(0, 0, 0), WorldPosition::new(1, 1, 1)));
    assert!(!drive(&mut ray, &dimension.chunks, ALONG_Z));
    let found = hit(ray, &dimension.chunks).unwrap();
    assert_eq!(found.position, WorldPosition::new(0, 0, 0));
    assert_eq!(found.back_step, WorldPosition::new(0, 0, 0));
    assert_eq!(found.normal, WorldPosition::new(0, 0, 0));
}

#[test]
fn a_ray_leaves_the_loaded_world() {
    let dimension = floor_world();
    let mut ray = start(descriptor(WorldPosition::new(5, 5, 30), WorldPosition::new(1, 1, 1)));
    assert!(drive(&mut ray, &dimension.chunks, ALONG_Z));
    assert!(drive(&mut ray, &dimension.chunks, ALONG_Z));
    assert!(!drive(&mut ray, &dimension.chunks, ALONG_Z));
    assert_eq!(ray.state, State::OutOfBounds);
    assert!(!drive(&mut ray, &dimension.chunks, ALONG_Z));
    assert_eq!(ray.state, State::OutOfBounds);
    assert_eq!(hit(ray, &dimension.chunks), None);
    let mut outside = start(descriptor(WorldPosition::new(-1, 0, 10), WorldPosition::new(1, 1, 1)));
    assert!(!drive(&mut outside, &dimension.chunks, ALONG_Z));
    assert_eq!(outside.state, State::OutOfBounds);
}

#[test]
fn a_chunk_that_is_being_generated_is_out_of_bounds() {
    let mut dimension = floor_world();
    dimension.chunks.insert(ChunkPosition::new(0, 0, 1), ChunkState::Generating);
    let mut ray = start(descriptor(WorldPosition::new(5, 5, 40), WorldPosition::new(1, 1, -1)));
    assert!(!drive(&mut ray, &dimension.chunks, ALONG_Z));
    assert_eq!(ray.state, State::OutOfBounds);
}

#[test]
fn a_ray_gives_up_after_the_step_cap() {
    let dimension = floor_world();
    let mut ray = start(descriptor(WorldPosition::new(5, 5, 10), WorldPosition::new(1, 1, 1)));
    for _ in 0..MAX_STEPS {
        assert!(drive(&mut ray, &dimension.chunks, NOWHERE));
    }
    assert!(!drive(&mut ray, &dimension.chunks, NOWHERE));
    assert_eq!(ray.state, State::MaxStepReached);
    assert_eq!(MAX_STEPS, 100);
    assert_eq!(hit(ray, &dimension.chunks), None);
}

#[test]
fn a_ray_gives_up_beyond_its_distance() {
    let dimension = floor_world();
    let mut ray = start(descriptor(WorldPosition::new(5, 5, 10), WorldPosition::new(1, 1, -1)));
    assert!(drive(&mut ray, &dimension.chunks, ALONG_Z));
    let far = Probe { mask: Mask { x: false, y: false, z: true }, beyond_max_distance: true };
    assert!(!drive(&mut ray, &dimension.chunks, far));
    assert_eq!(ray.state, State::MaxDistReached);
}

#[test]
fn a_block_found_past_a_cap_is_no_hit() {
    let dimension = floor_world();
    let mut ray = start(descriptor(WorldPosition::new(5, 5, 5), WorldPosition::new(1, 1, -1)));
    assert!(drive(&mut ray, &dimension.chunks, ALONG_Z));
    let far = Probe { mask: Mask { x: false, y: false, z: true }, beyond_max_distance: true };
    assert!(!drive(&mut ray, &dimension.chunks, far));
    assert_eq!(ray.state, State::BlockFound(Block::Stone, Box::new(State::MaxDistReached)));
    assert_eq!(hit(ray, &dimension.chunks), None);
}

#[test]
fn a_ray_crosses_into_negative_chunks() {
    let mut dimension = floor_world();
    let mut chunk = ServerChunk::new(0);
    let axis = LocalPosition::new(32, 32, 32);
    chunk.put_block(linearize(axis, LocalPosition::new(29, 0, 7)), Block::Wire);
    dimension.chunks.insert(ChunkPosition::new(-1, 0, 0), ChunkState::Stasis { chunk });
    let mut ray = start(descriptor(WorldPosition::new(1, 0, 7), WorldPosition::new(-1, 1, 1)));
    let along_x = Probe { mask: Mask { x: true, y: false, z: false }, beyond_max_distance: false };
    while drive(&mut ray, &dimension.chunks, along_x) {}
    let found = hit(ray, &dimension.chunks).unwrap();
    assert_eq!(found.block, Block::Wire);
    assert_eq!(found.position, WorldPosition::new(-3, 0, 7));
    assert_eq!(found.chunk_position, ChunkPosition::new(-1, 0, 0));
    assert_eq!(found.local_position, LocalPosition::new(29, 0, 7));
    assert_eq!(found.back_step, WorldPosition::new(-2, 0, 7));
    assert_eq!(found.back_step_local_position, LocalPosition::new(30, 0, 7));
    assert_eq!(found.normal, WorldPosition::new(1, 0, 0));
}

#[test]
fn a_step_beyond_the_range_of_coordinates_ends_the_ray() {
    let mut dimension: Dimension<ServerChunk> = Dimension::new();
    let edge = ChunkPosition::new(0, 0, isize::MAX.div_euclid(32));
    dimension.chunks.insert(edge, ChunkState::Active { chunk: ServerChunk::new(0) });
    let mut ray = start(descriptor(WorldPosition::new(0, 0, isize::MAX), WorldPosition::new(1, 1, 1)));
    assert!(!drive(&mut ray, &dimension.chunks, ALONG_Z));
    assert_eq!(ray.state, State::OutOfBounds);
}

#[test]
fn the_cell_before_a_hit_holds_air_and_lies_beside_it() {
    let dimension = floor_world();
    let along = |x: bool, y: bool, z: bool| Probe {
        mask: Mask { x, y, z },
        beyond_max_distance: false,
    };
    // A ray that winds its way down, one axis at a time.
    let probes = [
        along(true, false, false),
        along(false, false, true),
        along(false, true, false),
        along(false, false, true),
        along(true, false, false),
        along(false, false, true),
        along(false, false, true),
        along(false, true, false),
        along(false, false, true),
        along(false, false, true),
    ];
    let mut ray = start(descriptor(WorldPosition::new(3, 8, 9), WorldPosition::new(1, -1, -1)));
    let mut rounds = 0;
    for probe in probes {
        rounds += 1;
        if !drive(&mut ray, &dimension.chunks, probe) {
            break;
        }
    }
    assert!(matches!(ray.state, State::BlockFound(Block::Stone, _)));
    assert_eq!(rounds, 10);
    let found = hit(ray, &dimension.chunks).unwrap();
    assert_eq!(found.position, WorldPosition::new(5, 6, 4));
    assert_eq!(found.back_step, WorldPosition::new(5, 6, 5));
    let chunk = dimension.chunk_at(found.back_step_chunk_position).unwrap();
    let axis = LocalPosition::new(32, 32, 32);
    assert_eq!(chunk.block_at(linearize(axis, found.back_step_local_position)), Block::Air);
    assert_eq!(chunk.block_at(linearize(axis, found.local_position)), Block::Stone);
    let apart = (found.position.x - found.back_step.x).abs()
        + (found.position.y - found.back_step.y).abs()
        + (found.position.z - found.back_step.z).abs();
    assert_eq!(apart, 1);
    assert_eq!(found.chunk_position.x * 32 + found.local_position.x as isize, found.position.x);
    assert_eq!(found.chunk_position.z * 32 + found.local_position.z as isize, found.position.z);
}
