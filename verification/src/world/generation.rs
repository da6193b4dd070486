use vstd::prelude::*;

use crate::world::block::Block;
use crate::world::chunk::{Chunk, ServerChunk};
use crate::world::position::{ChunkPosition, LocalPosition, WorldPosition};
use crate::world::structure::{
    axis_len, axis_of, chunk_lod, lemma_lod_table, lod_scale, volume, MAX_LOD,
};

verus! {

/// Blocks between two samples of the density lattice.
pub const NOISE_SCALE: usize = 8;

/// Samples of the density lattice along one edge of a chunk: one for every
/// eight blocks and one more.
pub const NOISE_AXIS: usize = 5;

/// Samples of the density lattice of one chunk.
pub const NOISE_SAMPLES: usize = 125;

/// Where the density samples around a block stand in the lattice, and how
/// far the block lies from the lower ones, in blocks.
#[derive(Clone, Copy, Debug, PartialEq, Eq)]
pub struct NoiseCell {
    /// The lattice places of the eight samples around the block. Place `k`
    /// takes the upper sample along x if bit 0 of `k` is set, along y if bit
    /// 1 is, along z if bit 2 is.
    pub corners: [usize; 8],
    /// Per axis, the blocks between the lower sample and the block: the
    /// weight of the upper sample in eighths.
    pub weights: [usize; 3],
}

/// The place of the sample `(x, y, z)` in the lattice, x running fastest.
pub open spec fn lattice_index(x: int, y: int, z: int) -> int {
    x + 5 * (y + 5 * z)
}

/// The place of the sample `(x, y, z)` in the lattice.
pub fn noise_index(x: usize, y: usize, z: usize) -> (r: usize)
    requires
        x < NOISE_AXIS,
        y < NOISE_AXIS,
        z < NOISE_AXIS,
    ensures
        r == lattice_index(x as int, y as int, z as int),
        r < NOISE_SAMPLES,
{
    x + NOISE_AXIS * (y + NOISE_AXIS * z)
}

/// The world cell at which the sample `(x, y, z)` of the chunk at
/// `position` is taken: the lattice starts one step below the chunk's
/// origin.
pub open spec fn sample_cell(position: ChunkPosition, x: int, y: int, z: int) -> (int, int, int) {
    (position.x * 32 + (x - 1) * 8, position.y * 32 + (y - 1) * 8, position.z * 32 + (z - 1) * 8)
}

/// The world cell at which the sample `(x, y, z)` of the chunk at
/// `position` is taken, if the machine can hold it.
pub fn noise_sample_position(position: ChunkPosition, x: usize, y: usize, z: usize) -> (r: Option<
    WorldPosition,
>)
    requires
        x < NOISE_AXIS,
        y < NOISE_AXIS,
        z < NOISE_AXIS,
    ensures
        ({
            let c = sample_cell(position, x as int, y as int, z as int);
            match r {
                Some(w) => (w.x as int, w.y as int, w.z as int) == c,
                None => !(isize::MIN <= c.0 <= isize::MAX && isize::MIN <= c.1 <= isize::MAX
                    && isize::MIN <= c.2 <= isize::MAX),
            }
        }),
{
    let wx: Option<isize> = scaled_sum(position.x, x);
    let wy: Option<isize> = scaled_sum(position.y, y);
    let wz: Option<isize> = scaled_sum(position.z, z);
    match (wx, wy, wz) {
        (Some(x), Some(y), Some(z)) => Some(WorldPosition { x, y, z }),
        _ => None,
    }
}

/// The coordinate of the `k`-th sample along an axis on which the chunk has
/// the coordinate `p`, if the machine can hold it.
fn scaled_sum(p: isize, k: usize) -> (r: Option<isize>)
    requires
        k < NOISE_AXIS,
    ensures
        match r {
            Some(v) => v == p * 32 + (k - 1) * 8,
            None => !(isize::MIN <= p * 32 + (k - 1) * 8 <= isize::MAX),
        },
{
    let wide: i128 = (p as i128) * 32 + ((k as i128) - 1) * 8;
    if wide < isize::MIN as i128 || wide > isize::MAX as i128 {
        None
    } else {
        Some(wide as isize)
    }
}

/// The lattice places and weights for the block at `local` of a chunk at
/// level `lod`. The block's full-detail coordinate is its own times the
/// level's scale; the lower sample of an axis is that coordinate divided by
/// eight, the upper one the next, and the weight is the remainder.
pub fn noise_cell(local: LocalPosition, lod: usize) -> (r: NoiseCell)
    requires
        lod <= MAX_LOD,
        local.within(axis_of(lod as nat)),
    ensures
        ({
            let s = lod_scale(lod as nat) as int;
            let (x0, y0, z0) = ((local.x * s) / 8, (local.y * s) / 8, (local.z * s) / 8);
            &&& forall|k: int|
                0 <= k < 8 ==> #[trigger] r.corners[k] == lattice_index(
                    x0 + k % 2,
                    y0 + (k / 2) % 2,
                    z0 + k / 4,
                ) && r.corners[k] < NOISE_SAMPLES
            &&& r.weights[0] == (local.x * s) % 8
            &&& r.weights[1] == (local.y * s) % 8
            &&& r.weights[2] == (local.z * s) % 8
        }),
{
    proof {
        lemma_lod_table(lod as nat);
    }
    let scale: usize = chunk_lod(lod);
    assert(local.x * scale < 32 && local.y * scale < 32
        && local.z * scale < 32) by (nonlinear_arith)
        requires
            local.x < axis_len(lod as nat),
            local.y < axis_len(lod as nat),
            local.z < axis_len(lod as nat),
            axis_len(lod as nat) * scale == 32,
            scale >= 1,
    ;
    let ax: usize = local.x * scale;
    let ay: usize = local.y * scale;
    let az: usize = local.z * scale;
    let x0: usize = ax / NOISE_SCALE;
    let y0: usize = ay / NOISE_SCALE;
    let z0: usize = az / NOISE_SCALE;
    let x1: usize = x0 + 1;
    let y1: usize = y0 + 1;
    let z1: usize = z0 + 1;
    NoiseCell {
        corners: [
            noise_index(x0, y0, z0),
            noise_index(x1, y0, z0),
            noise_index(x0, y1, z0),
            noise_index(x1, y1, z0),
            noise_index(x0, y0, z1),
            noise_index(x1, y0, z1),
            noise_index(x0, y1, z1),
            noise_index(x1, y1, z1),
        ],
        weights: [ax % NOISE_SCALE, ay % NOISE_SCALE, az % NOISE_SCALE],
    }
}

/// The chunk that a density field gives at level `lod`: stone where the
/// density is positive and air elsewhere. `solid` says, cell by cell, for the
/// cells of the level, whether the density is positive. A level beyond the
/// coarsest holds no cell and gives the coarsest chunk of air. The chunk
/// holds no tiles.
pub fn gen(position: ChunkPosition, lod: usize, solid: &[bool]) -> (chunk: ServerChunk)
    requires
        solid@.len() >= volume(lod as nat),
    ensures
        chunk.wf(),
        chunk.lod() == (if lod <= MAX_LOD {
            lod
        } else {
            MAX_LOD
        }),
        chunk@.len() == volume(chunk.lod()),
        forall|i: int|
            0 <= i < chunk@.len() ==> (#[trigger] chunk@[i]).block == (if lod <= MAX_LOD
                && solid@[i] {
                Block::Stone
            } else {
                Block::Air
            }) && chunk@[i].rotation == 0,
        chunk.tile_map() == Map::<usize, u64>::empty(),
        chunk.next_id() == 0,
{
    let mut chunk: ServerChunk = ServerChunk::new(lod);
    proof {
        lemma_lod_table(lod as nat);
        lemma_lod_table(chunk.lod());
        assert forall|k: int| 0 <= k < chunk@.len() implies (#[trigger] chunk@[k]).block
            == Block::Air by {
            assert(chunk.blocks()[k] == Block::Air);
        }
    }
    let size: usize = if lod <= MAX_LOD {
        chunk.size()
    } else {
        0
    };
    let ghost total = chunk@.len();
    let mut i: usize = 0;
    while i < size
        invariant
            i <= size,
            lod <= MAX_LOD ==> size == total,
            lod > MAX_LOD ==> size == 0,
            solid@.len() >= size,
            chunk.wf(),
            chunk.lod() == (if lod <= MAX_LOD {
                lod
            } else {
                MAX_LOD
            }),
            chunk@.len() == total,
            chunk.tile_map() == Map::<usize, u64>::empty(),
            chunk.next_id() == 0,
            forall|k: int|
                0 <= k < total ==> (#[trigger] chunk@[k]).block == (if k < i && solid@[k] {
                    Block::Stone
                } else {
                    Block::Air
                }) && chunk@[k].rotation == 0,
        decreases size - i,
    {
        let block: Block = if solid[i] {
            Block::Stone
        } else {
            Block::Air
        };
        let ghost before = chunk;
        chunk.put_block(i, block);
        proof {
            assert(before@[i as int].block == Block::Air);
            assert(chunk.tile_map() =~= Map::<usize, u64>::empty());
        }
        i = i + 1;
    }
    chunk
}

} // verus!
