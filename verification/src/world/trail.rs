use vstd::prelude::*;

use crate::world::block::Block;
use crate::world::chunk::{Chunk, ServerChunk};
use crate::world::dimension::{
    chunk_of_cell, edited_blocks, edits_applied, local_of_cell, names_chunk, ChunkState,
    Dimension, Edit,
};
use crate::world::entity::Change;
use crate::world::position::{ChunkPosition, LocalPosition, WorldPosition};
use crate::world::raycast::{
    as_position, driven, fits, hit_result, loaded, masked, started, Descriptor, Mask, Probe, Ray,
    State,
};
use crate::world::server::{edit_of, edits_of};
use crate::world::structure::{
    axis_of, lemma_delinearize_linearize, lemma_linear_index_bound, lemma_lod_table, linear_index,
};

verus! {

/// The state of a ray after the rounds that the probes drive, one round for
/// each probe, in their order.
pub open spec fn run<C: Chunk>(
    descriptor: Descriptor,
    chunks: Map<ChunkPosition, ChunkState<C>>,
    probes: Seq<Probe>,
) -> State
    decreases probes.len(),
{
    if probes.len() == 0 {
        started(descriptor)
    } else {
        driven(run(descriptor, chunks, probes.drop_last()), chunks, probes.last())
    }
}

/// Whether the mask names exactly one axis.
pub open spec fn one_axis(mask: Mask) -> bool {
    (mask.x && !mask.y && !mask.z) || (!mask.x && mask.y && !mask.z) || (!mask.x && !mask.y
        && mask.z)
}

/// Whether the step goes one cell forwards or backwards along each axis.
pub open spec fn unit_step(step: WorldPosition) -> bool {
    (step.x == 1 || step.x == -1) && (step.y == 1 || step.y == -1) && (step.z == 1 || step.z
        == -1)
}

/// Whether the world cell `p` lies in a chunk that holds data at full
/// detail.
pub open spec fn cell_ready<C: Chunk>(
    chunks: Map<ChunkPosition, ChunkState<C>>,
    p: WorldPosition,
) -> bool {
    loaded(chunks, chunk_of_cell(p)) && chunks[chunk_of_cell(p)].held().lod() == 0
}

/// The block of the world cell `p`, a cell in a chunk at full detail.
pub open spec fn block_of_cell<C: Chunk>(
    chunks: Map<ChunkPosition, ChunkState<C>>,
    p: WorldPosition,
) -> Block {
    chunks[chunk_of_cell(p)].held().blocks()[linear_index(axis_of(0), local_of_cell(p))]
}

/// The cell from which a step along the axes of `mask` led to `p`.
pub open spec fn cell_behind(p: WorldPosition, mask: Mask, ray_step: WorldPosition) -> (
    int,
    int,
    int,
) {
    let m = masked(mask, ray_step);
    (p.x - m.0, p.y - m.1, p.z - m.2)
}

/// Whether a traversal that has stepped came from a cell of air in a chunk
/// at full detail, by a step along one axis.
pub open spec fn stepped_from_air<C: Chunk>(
    state: State,
    chunks: Map<ChunkPosition, ChunkState<C>>,
    step: WorldPosition,
) -> bool {
    match state {
        State::Traversal { world_position, mask, ray_step, step_count } => {
            &&& ray_step == step
            &&& step_count > 0 ==> {
                let back = cell_behind(world_position, mask, ray_step);
                &&& one_axis(mask)
                &&& fits(back)
                &&& cell_ready(chunks, as_position(back))
                &&& block_of_cell(chunks, as_position(back)) == Block::Air
            }
        },
        _ => true,
    }
}

/// Whether a ray that found a block found it in the cell where it stood,
/// and came there as `stepped_from_air` says.
pub open spec fn found_from_air<C: Chunk>(
    state: State,
    chunks: Map<ChunkPosition, ChunkState<C>>,
    step: WorldPosition,
) -> bool {
    match state {
        State::BlockFound(block, prev) => {
            &&& block != Block::Air
            &&& stepped_from_air(*prev, chunks, step)
            &&& match *prev {
                State::Traversal { world_position, mask, ray_step, step_count } => cell_ready(
                    chunks,
                    world_position,
                ) && block_of_cell(chunks, world_position) == block,
                _ => true,
            }
        },
        _ => true,
    }
}

/// Whether the ray found a block after it had stepped at least once.
pub open spec fn found_after_step(state: State) -> bool {
    match state {
        State::BlockFound(_, prev) => match *prev {
            State::Traversal { world_position, mask, ray_step, step_count } => step_count > 0,
            _ => false,
        },
        _ => false,
    }
}

/// Whether the two cells lie side by side: they differ by one along one
/// axis and not at all along the others.
pub open spec fn side_by_side(a: WorldPosition, b: WorldPosition) -> bool {
    let d = (a.x - b.x, a.y - b.y, a.z - b.z);
    ((d.0 == 1 || d.0 == -1) && d.1 == 0 && d.2 == 0) || (d.0 == 0 && (d.1 == 1 || d.1 == -1)
        && d.2 == 0) || (d.0 == 0 && d.1 == 0 && (d.2 == 1 || d.2 == -1))
}

/// Whether the chunk `c` and the place `l` in it name the world cell `p`.
pub open spec fn names_cell(c: ChunkPosition, l: LocalPosition, p: WorldPosition) -> bool {
    &&& c.x * 32 + l.x == p.x
    &&& c.y * 32 + l.y == p.y
    &&& c.z * 32 + l.z == p.z
    &&& l.x < 32 && l.y < 32 && l.z < 32
}

/// The chunk and the place of a world cell name the cell.
pub proof fn lemma_cell_split(p: WorldPosition)
    ensures
        names_cell(chunk_of_cell(p), local_of_cell(p), p),
{
    vstd::arithmetic::div_mod::lemma_fundamental_div_mod(p.x as int, 32);
    vstd::arithmetic::div_mod::lemma_fundamental_div_mod(p.y as int, 32);
    vstd::arithmetic::div_mod::lemma_fundamental_div_mod(p.z as int, 32);
}

/// However a ray is driven, as long as each round steps along one axis: a
/// traversal that has stepped came from a cell of air, and a block that was
/// found lies in the cell where the ray stood.
pub proof fn lemma_run_from_air<C: Chunk>(
    descriptor: Descriptor,
    chunks: Map<ChunkPosition, ChunkState<C>>,
    probes: Seq<Probe>,
)
    requires
        forall|k: int| 0 <= k < probes.len() ==> one_axis((#[trigger] probes[k]).mask),
    ensures
        stepped_from_air(run(descriptor, chunks, probes), chunks, descriptor.ray_step),
        found_from_air(run(descriptor, chunks, probes), chunks, descriptor.ray_step),
    decreases probes.len(),
{
    if probes.len() > 0 {
        let rest = probes.drop_last();
        assert forall|k: int| 0 <= k < rest.len() implies one_axis((#[trigger] rest[k]).mask) by {
            assert(rest[k] == probes[k]);
        }
        lemma_run_from_air(descriptor, chunks, rest);
        let probe = probes.last();
        assert(one_axis(probe.mask));
        let before = run(descriptor, chunks, rest);
        let after = run(descriptor, chunks, probes);
        assert(after == driven(before, chunks, probe));
        match before {
            State::Traversal { world_position, mask, ray_step, step_count } => {
                let m = masked(probe.mask, ray_step);
                let next = (world_position.x + m.0, world_position.y + m.1, world_position.z + m.2);
                if fits(next) {
                    assert(cell_behind(as_position(next), probe.mask, ray_step) == (
                        world_position.x as int,
                        world_position.y as int,
                        world_position.z as int,
                    ));
                    assert(as_position(cell_behind(as_position(next), probe.mask, ray_step))
                        == world_position);
                }
            },
            _ => {},
        }
    }
}

/// A ray that steps one cell along one axis in each round, and finds a block
/// after it has stepped, reports a hit: the cell hit holds the block found,
/// which is not air; the cell before it holds air; the two lie side by side,
/// in chunks at full detail; and each is named by its chunk and its place in
/// the chunk.
pub proof fn lemma_hit_behind_air<C: Chunk>(
    descriptor: Descriptor,
    chunks: Map<ChunkPosition, ChunkState<C>>,
    probes: Seq<Probe>,
)
    requires
        unit_step(descriptor.ray_step),
        forall|k: int| 0 <= k < probes.len() ==> one_axis((#[trigger] probes[k]).mask),
        found_after_step(run(descriptor, chunks, probes)),
    ensures
        ({
            let ray = Ray { descriptor, state: run(descriptor, chunks, probes) };
            let found = hit_result(ray, chunks);
            &&& found.is_some()
            &&& found.unwrap().block != Block::Air
            &&& cell_ready(chunks, found.unwrap().position)
            &&& cell_ready(chunks, found.unwrap().back_step)
            &&& block_of_cell(chunks, found.unwrap().position) == found.unwrap().block
            &&& block_of_cell(chunks, found.unwrap().back_step) == Block::Air
            &&& side_by_side(found.unwrap().back_step, found.unwrap().position)
            &&& names_cell(
                found.unwrap().chunk_position,
                found.unwrap().local_position,
                found.unwrap().position,
            )
            &&& names_cell(
                found.unwrap().back_step_chunk_position,
                found.unwrap().back_step_local_position,
                found.unwrap().back_step,
            )
        }),
{
    lemma_run_from_air(descriptor, chunks, probes);
    let state = run(descriptor, chunks, probes);
    match state {
        State::BlockFound(block, prev) => match *prev {
            State::Traversal { world_position, mask, ray_step, step_count } => {
                let back = cell_behind(world_position, mask, ray_step);
                lemma_cell_split(world_position);
                lemma_cell_split(as_position(back));
            },
            _ => {},
        },
        _ => {},
    }
}

/// A block placed along such a ray lands in the last cell of air before the
/// block that the ray found: after the change that cell holds the block
/// placed, the cell hit holds what it held, and the chunk written to is
/// marked as updated.
pub proof fn lemma_place_behind_hit(
    before: &Dimension<ServerChunk>,
    after: &Dimension<ServerChunk>,
    descriptor: Descriptor,
    probes: Seq<Probe>,
    block: Block,
)
    requires
        before.wf(),
        unit_step(descriptor.ray_step),
        forall|k: int| 0 <= k < probes.len() ==> one_axis((#[trigger] probes[k]).mask),
        found_after_step(run(descriptor, before.chunks@, probes)),
        edits_applied(
            before,
            after,
            edits_of(
                before,
                seq![
                    (
                        Change::Place(block),
                        (Ray { descriptor, state: run(descriptor, before.chunks@, probes) }),
                    ),
                ],
            ),
        ),
    ensures
        ({
            let ray = Ray { descriptor, state: run(descriptor, before.chunks@, probes) };
            let found = hit_result(ray, before.chunks@).unwrap();
            &&& edit_of(before, Change::Place(block), ray) == Some(
                (found.back_step_chunk_position, found.back_step_local_position, block),
            )
            &&& block_of_cell(after.chunks@, found.back_step) == block
            &&& block_of_cell(after.chunks@, found.position) == found.block
            &&& after.chunk_updated@.contains(found.back_step_chunk_position)
        }),
{
    let ray = Ray { descriptor, state: run(descriptor, before.chunks@, probes) };
    let change = Change::Place(block);
    lemma_hit_behind_air(descriptor, before.chunks@, probes);
    let found = hit_result(ray, before.chunks@).unwrap();
    let edit: Edit = (found.back_step_chunk_position, found.back_step_local_position, block);
    let changes = seq![(change, ray)];
    assert(changes.drop_last() =~= Seq::<(Change, Ray)>::empty());
    assert(changes.last() == (change, ray));
    assert(edits_of(before, changes.drop_last()) =~= Seq::<Edit>::empty());
    let edits = edits_of(before, changes);
    assert(before.present_at(found.back_step_chunk_position));
    assert(edit_of(before, change, ray) == Some(edit));
    assert(edits =~= seq![edit]);
    assert(edits.drop_last() =~= Seq::<Edit>::empty());
    assert(edits.last() == edit);
    assert(names_chunk(edits, edit.0)) by {
        assert(edits[0].0 == edit.0);
    }
    lemma_lod_table(0);
    let c_back = found.back_step_chunk_position;
    let c_hit = found.chunk_position;
    let l_back = found.back_step_local_position;
    let l_hit = found.local_position;
    assert(l_back.within(axis_of(0)));
    assert(l_hit.within(axis_of(0)));
    lemma_linear_index_bound(axis_of(0), l_back);
    lemma_linear_index_bound(axis_of(0), l_hit);
    lemma_delinearize_linearize(axis_of(0), l_back);
    lemma_delinearize_linearize(axis_of(0), l_hit);
    assert(before.chunks@.contains_key(c_back));
    assert(before.chunks@[c_back].wf());
    assert(before.present_at(c_hit));
    assert(before.chunks@[c_hit].wf());
    let old_back = before.chunks@[c_back].held().blocks();
    assert(edited_blocks(old_back, 0, c_back, edits.drop_last()) == old_back);
    if c_hit != c_back {
        let old_hit = before.chunks@[c_hit].held().blocks();
        assert(edited_blocks(old_hit, 0, c_hit, edits.drop_last()) == old_hit);
    }
}

} // verus!
