use vstd::prelude::*;

use crate::world::block::Block;
use crate::world::chunk::Chunk;
use crate::world::dimension::{chunk_of_cell, local_of_cell, ChunkState};
use crate::world::lookup::PositionMap;
use crate::world::position::{floor_div, floor_mod, ChunkPosition, LocalPosition, WorldPosition};
use crate::world::structure::{
    axis_of, chunk_axis, lemma_linear_index_bound, lemma_lod_table, linear_index, linearize,
};

verus! {

/// The steps after which a ray gives up.
pub const MAX_STEPS: usize = 100;

/// Which cell a ray is cast for.
#[derive(Clone, Copy, Debug, PartialEq, Eq, Structural)]
pub enum Target {
    /// The cell of the block that the ray hits.
    Position,
    /// The last free cell before that block.
    Backstep,
}

/// The axes along which a step moves.
#[derive(Clone, Copy, Debug, PartialEq, Eq, Structural)]
pub struct Mask {
    pub x: bool,
    pub y: bool,
    pub z: bool,
}

/// Where a ray starts and which way it steps along each axis.
#[derive(Clone, Copy, Debug, PartialEq, Eq)]
pub struct Descriptor {
    /// The cell that holds the ray's origin.
    pub origin: WorldPosition,
    /// Per axis the sign of the ray's direction: -1 or 1.
    pub ray_step: WorldPosition,
    pub minimum: WorldPosition,
    pub maximum: WorldPosition,
}

/// What the caller's arithmetic on distances says before a step: along
/// which axes the nearest cell border lies, and whether the ray has gone
/// farther than it may.
#[derive(Clone, Copy, Debug)]
pub struct Probe {
    pub mask: Mask,
    pub beyond_max_distance: bool,
}

#[derive(Debug, PartialEq, Eq)]
pub enum State {
    Traversal { world_position: WorldPosition, mask: Mask, ray_step: WorldPosition,
        step_count: usize },
    /// The cell lies in a chunk that is not held at full detail.
    VolumeNotReady,
    /// The cell lies where no chunk holds data, or beyond the machine's
    /// range.
    OutOfBounds,
    MaxDistReached,
    MaxStepReached,
    /// The block that the ray hit, and the state in which it hit it.
    BlockFound(Block, Box<State>),
}

pub struct Ray {
    pub descriptor: Descriptor,
    pub state: State,
}

#[derive(Debug, PartialEq, Eq)]
pub struct Hit {
    pub normal: WorldPosition,
    pub back_step: WorldPosition,
    pub position: WorldPosition,
    pub chunk_position: ChunkPosition,
    pub local_position: LocalPosition,
    pub back_step_chunk_position: ChunkPosition,
    pub back_step_local_position: LocalPosition,
    pub block: Block,
}

/// The step `step` along the axes of `mask` and none along the others.
pub open spec fn masked(mask: Mask, step: WorldPosition) -> (int, int, int) {
    (
        if mask.x {
            step.x as int
        } else {
            0
        },
        if mask.y {
            step.y as int
        } else {
            0
        },
        if mask.z {
            step.z as int
        } else {
            0
        },
    )
}

/// Whether the triple can be held as a position.
pub open spec fn fits(p: (int, int, int)) -> bool {
    isize::MIN <= p.0 <= isize::MAX && isize::MIN <= p.1 <= isize::MAX && isize::MIN <= p.2
        <= isize::MAX
}

/// The triple as a position.
pub open spec fn as_position(p: (int, int, int)) -> WorldPosition {
    WorldPosition { x: p.0 as isize, y: p.1 as isize, z: p.2 as isize }
}

/// Whether a chunk with data stands at `c`.
pub open spec fn loaded<C: Chunk>(chunks: Map<ChunkPosition, ChunkState<C>>,
    c: ChunkPosition) -> bool {
    chunks.contains_key(c) && chunks[c].present()
}

/// The map is consistent and every chunk in it is well formed.
pub open spec fn chunks_wf<C: Chunk>(chunks: &PositionMap<ChunkState<C>>) -> bool {
    chunks.wf() && forall|p: ChunkPosition| #[trigger]
        chunks@.contains_key(p) ==> chunks@[p].wf()
}

/// A ray at its origin, about to look at the cell it starts in.
pub open spec fn started(descriptor: Descriptor) -> State {
    State::Traversal {
        world_position: descriptor.origin,
        mask: Mask { x: false, y: false, z: false },
        ray_step: descriptor.ray_step,
        step_count: 0,
    }
}

/// The state after one round of checks and, if the ray goes on, one step.
/// A state that is not a traversal stays. A traversal first meets the caps:
/// past the distance it becomes `MaxDistReached`, else at the step cap
/// `MaxStepReached`. Then the cell is looked up: without a chunk that holds
/// data the ray is `OutOfBounds`; in a chunk not at full detail the volume
/// is not ready; a block other than air ends the ray with `BlockFound`,
/// which keeps the state the caps left. Only a traversal that met no cap and
/// found air steps on, along the axes of the probe's mask.
pub open spec fn driven<C: Chunk>(state: State, chunks: Map<ChunkPosition, ChunkState<C>>,
    probe: Probe) -> State {
    match state {
        State::Traversal { world_position, mask, ray_step, step_count } => {
            let capped = if probe.beyond_max_distance {
                State::MaxDistReached
            } else if step_count >= MAX_STEPS {
                State::MaxStepReached
            } else {
                state
            };
            let c = chunk_of_cell(world_position);
            if !loaded(chunks, c) {
                State::OutOfBounds
            } else if chunks[c].held().lod() != 0 {
                State::VolumeNotReady
            } else {
                let block = chunks[c].held().blocks()[linear_index(
                    axis_of(0),
                    local_of_cell(world_position),
                )];
                if block != Block::Air {
                    State::BlockFound(block, Box::new(capped))
                } else if capped is Traversal {
                    let m = masked(probe.mask, ray_step);
                    let next = (world_position.x + m.0, world_position.y + m.1,
                        world_position.z + m.2);
                    if fits(next) {
                        State::Traversal {
                            world_position: as_position(next),
                            mask: probe.mask,
                            ray_step,
                            step_count: (step_count + 1) as usize,
                        }
                    } else {
                        State::OutOfBounds
                    }
                } else {
                    capped
                }
            }
        },
        _ => state,
    }
}

/// What a finished ray hit: for a ray that found a block while still
/// traversing, the block, its cell, the cell the ray came from, the chunks
/// and places of both, and the face it came through; nothing for any other
/// ray, nor where one of the two cells has no chunk with data.
pub open spec fn hit_result<C: Chunk>(ray: Ray, chunks: Map<ChunkPosition,
    ChunkState<C>>) -> Option<Hit> {
    match ray.state {
        State::BlockFound(block, prev) => match *prev {
            State::Traversal { world_position, mask, ray_step, step_count } => {
                let m = masked(mask, ray_step);
                let back = (world_position.x - m.0, world_position.y - m.1, world_position.z - m.2);
                let normal = (-m.0, -m.1, -m.2);
                if fits(back) && fits(normal) && loaded(chunks, chunk_of_cell(world_position))
                    && loaded(chunks, chunk_of_cell(as_position(back))) {
                    Some(
                        Hit {
                            normal: as_position(normal),
                            back_step: as_position(back),
                            position: world_position,
                            chunk_position: chunk_of_cell(world_position),
                            local_position: local_of_cell(world_position),
                            back_step_chunk_position: chunk_of_cell(as_position(back)),
                            back_step_local_position: local_of_cell(as_position(back)),
                            block,
                        },
                    )
                } else {
                    None
                }
            },
            _ => None,
        },
        _ => None,
    }
}

/// A ray at the start of its traversal.
pub fn start(descriptor: Descriptor) -> (ray: Ray)
    ensures
        ray.descriptor == descriptor,
        ray.state == started(descriptor),
{
    Ray {
        state: State::Traversal {
            world_position: descriptor.origin,
            mask: Mask { x: false, y: false, z: false },
            ray_step: descriptor.ray_step,
            step_count: 0,
        },
        descriptor,
    }
}

/// The chunk of the cell `p` and the cell's place in it.
fn split_cell(p: WorldPosition) -> (r: (ChunkPosition, LocalPosition))
    ensures
        r.0 == chunk_of_cell(p),
        r.1 == local_of_cell(p),
        r.1.within(axis_of(0)),
{
    proof {
        lemma_lod_table(0);
    }
    (
        ChunkPosition { x: floor_div(p.x, 32), y: floor_div(p.y, 32), z: floor_div(p.z, 32) },
        LocalPosition { x: floor_mod(p.x, 32), y: floor_mod(p.y, 32), z: floor_mod(p.z, 32) },
    )
}

/// The position `p` moved by `step` along the axes of `mask`, forwards or
/// backwards, if the machine can hold it.
fn shifted(p: WorldPosition, mask: Mask, step: WorldPosition, forwards: bool) -> (r: Option<
    WorldPosition,
>)
    ensures
        ({
            let m = masked(mask, step);
            let q = if forwards {
                (p.x + m.0, p.y + m.1, p.z + m.2)
            } else {
                (p.x - m.0, p.y - m.1, p.z - m.2)
            };
            match r {
                Some(w) => fits(q) && w == as_position(q),
                None => !fits(q),
            }
        }),
{
    let mx: isize = if mask.x {
        step.x
    } else {
        0
    };
    let my: isize = if mask.y {
        step.y
    } else {
        0
    };
    let mz: isize = if mask.z {
        step.z
    } else {
        0
    };
    let (x, y, z): (Option<isize>, Option<isize>, Option<isize>) = if forwards {
        (p.x.checked_add(mx), p.y.checked_add(my), p.z.checked_add(mz))
    } else {
        (p.x.checked_sub(mx), p.y.checked_sub(my), p.z.checked_sub(mz))
    };
    match (x, y, z) {
        (Some(x), Some(y), Some(z)) => Some(WorldPosition { x, y, z }),
        _ => None,
    }
}

/// One round of a ray's traversal: the checks on the cell it stands in and,
/// if it goes on, the step to the next cell. Says whether the ray goes on.
pub fn drive<C: Chunk>(ray: &mut Ray, chunks: &PositionMap<ChunkState<C>>,
    probe: Probe) -> (going: bool)
    requires
        chunks_wf(chunks),
    ensures
        final(ray).state == driven(old(ray).state, chunks@, probe),
        final(ray).descriptor == old(ray).descriptor,
        going == (final(ray).state is Traversal),
{
    let (position, ray_step, step_count): (WorldPosition, WorldPosition, usize) = match &ray.state {
        State::Traversal { world_position, mask, ray_step, step_count } => (
            *world_position,
            *ray_step,
            *step_count,
        ),
        _ => {
            return false;
        },
    };
    let capped: bool = probe.beyond_max_distance || step_count >= MAX_STEPS;
    let (c, local): (ChunkPosition, LocalPosition) = split_cell(position);
    let chunk: &C = match chunks.get(c) {
        Some(state) => match state.chunk() {
            Some(chunk) => chunk,
            None => {
                ray.state = State::OutOfBounds;
                return false;
            },
        },
        None => {
            ray.state = State::OutOfBounds;
            return false;
        },
    };
    if chunk.lod_level() != 0 {
        ray.state = State::VolumeNotReady;
        return false;
    }
    proof {
        lemma_lod_table(0);
        lemma_linear_index_bound(axis_of(0), local);
    }
    let size: usize = chunk.size();
    let i: usize = linearize(chunk_axis(0), local);
    let block: Block = chunk.block_at(i);
    if block != Block::Air {
        let before: State = if probe.beyond_max_distance {
            State::MaxDistReached
        } else if step_count >= MAX_STEPS {
            State::MaxStepReached
        } else {
            match &ray.state {
                State::Traversal { world_position, mask, ray_step,
                    step_count } => State::Traversal {
                    world_position: *world_position,
                    mask: *mask,
                    ray_step: *ray_step,
                    step_count: *step_count,
                },
                _ => State::OutOfBounds,
            }
        };
        ray.state = State::BlockFound(block, Box::new(before));
        return false;
    }
    if probe.beyond_max_distance {
        ray.state = State::MaxDistReached;
        return false;
    }
    if step_count >= MAX_STEPS {
        ray.state = State::MaxStepReached;
        return false;
    }
    match shifted(position, probe.mask, ray_step, true) {
        Some(next) => {
            ray.state = State::Traversal {
                world_position: next,
                mask: probe.mask,
                ray_step,
                step_count: step_count + 1,
            };
            true
        },
        None => {
            ray.state = State::OutOfBounds;
            false
        },
    }
}

/// What a finished ray hit, if it hit anything.
pub fn hit<C: Chunk>(ray: Ray, chunks: &PositionMap<ChunkState<C>>) -> (r: Option<Hit>)
    requires
        chunks_wf(chunks),
    ensures
        r == hit_result(ray, chunks@),
{
    let (block, prev): (Block, Box<State>) = match ray.state {
        State::BlockFound(block, prev) => (block, prev),
        _ => {
            return None;
        },
    };
    let (position, mask, ray_step): (WorldPosition, Mask, WorldPosition) = match *prev {
        State::Traversal { world_position, mask, ray_step, step_count } => (
            world_position,
            mask,
            ray_step,
        ),
        _ => {
            return None;
        },
    };
    let back: WorldPosition = match shifted(position, mask, ray_step, false) {
        Some(b) => b,
        None => {
            return None;
        },
    };
    let zero: WorldPosition = WorldPosition { x: 0, y: 0, z: 0 };
    let normal: WorldPosition = match shifted(zero, mask, ray_step, false) {
        Some(n) => n,
        None => {
            return None;
        },
    };
    let (chunk_position, local_position): (ChunkPosition, LocalPosition) = split_cell(position);
    let (back_chunk, back_local): (ChunkPosition, LocalPosition) = split_cell(back);
    let here: bool = match chunks.get(chunk_position) {
        Some(state) => state.is_present(),
        None => false,
    };
    let there: bool = match chunks.get(back_chunk) {
        Some(state) => state.is_present(),
        None => false,
    };
    if !here || !there {
        return None;
    }
    Some(
        Hit {
            normal,
            back_step: back,
            position,
            chunk_position,
            local_position,
            back_step_chunk_position: back_chunk,
            back_step_local_position: back_local,
            block,
        },
    )
}

} // verus!
