use vstd::prelude::*;

use crate::world::block::Block;
use crate::world::chunk::Chunk;
use crate::world::dimension::{
    edited_blocks, edits_applied, taken_in, waiting_elsewhere, Dimension, Edit,
};
use crate::world::position::{ChunkPosition, LocalPosition};
use crate::world::structure::{
    axis_of, lemma_delinearize_linearize, lemma_linear_index_bound, lemma_lod_table,
    linear_index, volume,
};

verus! {

/// Whether every edit of the list for the cell `l` of the chunk at `p`
/// writes the block `b`.
pub open spec fn writes_only(edits: Seq<Edit>, p: ChunkPosition, l: LocalPosition, b: Block) -> bool {
    forall|k: int|
        0 <= k < edits.len() && (#[trigger] edits[k]).0 == p && edits[k].1 == l ==> edits[k].2 == b
}

/// Edits change no chunk's number of cells.
pub proof fn lemma_edited_len(blocks: Seq<Block>, lod: nat, p: ChunkPosition, edits: Seq<Edit>)
    requires
        lod <= 5,
        blocks.len() == volume(lod),
    ensures
        edited_blocks(blocks, lod, p, edits).len() == blocks.len(),
    decreases edits.len(),
{
    if edits.len() > 0 {
        lemma_edited_len(blocks, lod, p, edits.drop_last());
        lemma_lod_table(lod);
        if edits.last().1.within(axis_of(lod)) {
            lemma_linear_index_bound(axis_of(lod), edits.last().1);
        }
    }
}

/// A cell for which the edits hold a block, and no other block, holds that
/// block once the edits were written.
pub proof fn lemma_edited_cell(
    blocks: Seq<Block>,
    lod: nat,
    p: ChunkPosition,
    edits: Seq<Edit>,
    l: LocalPosition,
    b: Block,
)
    requires
        lod <= 5,
        blocks.len() == volume(lod),
        l.within(axis_of(lod)),
        edits.contains((p, l, b)),
        writes_only(edits, p, l, b),
    ensures
        edited_blocks(blocks, lod, p, edits)[linear_index(axis_of(lod), l)] == b,
    decreases edits.len(),
{
    let axis = axis_of(lod);
    lemma_lod_table(lod);
    lemma_linear_index_bound(axis, l);
    let k = edits.index_of((p, l, b));
    let last = edits.last();
    let rest = edits.drop_last();
    let prev = edited_blocks(blocks, lod, p, rest);
    lemma_edited_len(blocks, lod, p, rest);
    if last.0 == p && last.1 == l {
        assert(last.2 == b);
    } else {
        assert(k < rest.len());
        assert(rest[k] == (p, l, b));
        assert(writes_only(rest, p, l, b)) by {
            assert forall|j: int|
                0 <= j < rest.len() && (#[trigger] rest[j]).0 == p && rest[j].1
                    == l implies rest[j].2 == b by {
                assert(rest[j] == edits[j]);
            }
        }
        lemma_edited_cell(blocks, lod, p, rest, l, b);
        if last.0 == p && last.1.within(axis) {
            lemma_linear_index_bound(axis, last.1);
            lemma_delinearize_linearize(axis, last.1);
            lemma_delinearize_linearize(axis, l);
            assert(linear_index(axis, last.1) != linear_index(axis, l));
        }
    }
}

/// No edit for the chunk at `position` is among those that wait for
/// another chunk.
pub proof fn lemma_none_waits(buffer: Seq<Edit>, position: ChunkPosition, edit: Edit)
    requires
        edit.0 == position,
    ensures
        !waiting_elsewhere(buffer, position).contains(edit),
    decreases buffer.len(),
{
    reveal(Seq::filter);
    if buffer.len() > 0 {
        lemma_none_waits(buffer.drop_last(), position, edit);
        let rest = waiting_elsewhere(buffer.drop_last(), position);
        let all = waiting_elsewhere(buffer, position);
        if all.contains(edit) {
            let j = all.index_of(edit);
            if all != rest {
                assert(all == rest.push(buffer.last()));
                if j < rest.len() {
                    assert(rest[j] == edit);
                }
            }
        }
    }
}

/// An edit that came before its chunk held data is written when the chunk
/// comes: the edit waits in the buffer, and once the chunk is taken in, the
/// cell holds the edit's block, the edit has left the buffer and the chunk is
/// marked as updated. This holds where no other block waits for the cell,
/// and for a cell that lies in the chunk.
pub proof fn lemma_waiting_edit_is_written<C: Chunk>(
    d0: &Dimension<C>,
    d1: &Dimension<C>,
    d2: &Dimension<C>,
    edit: Edit,
    chunk: C,
)
    requires
        !d0.present_at(edit.0),
        writes_only(d0.blocks_buffer@, edit.0, edit.1, edit.2),
        edits_applied(d0, d1, seq![edit]),
        chunk.lod() <= 5,
        chunk.blocks().len() == volume(chunk.lod()),
        edit.1.within(axis_of(chunk.lod())),
        taken_in(d1, d2, edit.0, chunk),
    ensures
        d1.blocks_buffer@.contains(edit),
        d2.chunks@.contains_key(edit.0),
        d2.chunks@[edit.0] is Stasis,
        d2.chunks@[edit.0].held().blocks()[linear_index(axis_of(chunk.lod()), edit.1)] == edit.2,
        !d2.blocks_buffer@.contains(edit),
        d2.chunk_updated@.contains(edit.0),
{
    let edits = seq![edit];
    assert(edits[0] == edit);
    assert(edits.contains(edit));
    let waiting = d1.blocks_buffer@;
    assert(waiting.contains(edit));
    assert(writes_only(waiting, edit.0, edit.1, edit.2)) by {
        assert forall|k: int|
            0 <= k < waiting.len() && (#[trigger] waiting[k]).0 == edit.0 && waiting[k].1
                == edit.1 implies waiting[k].2 == edit.2 by {
            let e = waiting[k];
            assert(waiting.contains(e));
            if d0.blocks_buffer@.contains(e) {
                let j = d0.blocks_buffer@.index_of(e);
                assert(d0.blocks_buffer@[j] == e);
            } else {
                assert(edits.contains(e));
                let j = edits.index_of(e);
                assert(edits[j] == e);
            }
        }
    }
    assert(waiting.contains((edit.0, edit.1, edit.2)));
    lemma_edited_cell(chunk.blocks(), chunk.lod(), edit.0, waiting, edit.1, edit.2);
    lemma_none_waits(waiting, edit.0, edit);
}

} // verus!
