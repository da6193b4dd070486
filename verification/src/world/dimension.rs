use vstd::prelude::*;

use crate::world::block::Block;
use crate::world::chunk::{Chunk, TileTransition};
use crate::world::lookup::{PositionMap, PositionSet};
use crate::world::position::{floor_div, floor_mod, ChunkPosition, LocalPosition, WorldPosition};
use crate::world::raycast::{hit, Hit, Ray, Target};
use crate::world::structure::{
    axis_of,
    chunk_axis,
    lemma_linear_index_bound,
    lemma_lod_table,
    linear_index,
    linearize,
};

verus! {

/// Where a chunk stands in its life cycle.
pub enum ChunkState<C: Chunk> {
    /// Asked for; no data yet.
    Generating,
    /// Data present; what is derived from the neighbours is not complete.
    Stasis { chunk: C },
    /// Complete; shown and sent.
    Active { chunk: C },
}

impl<C: Chunk> ChunkState<C> {
    /// Whether the state holds a chunk.
    pub open spec fn present(self) -> bool {
        !(self is Generating)
    }

    /// The chunk that the state holds; arbitrary for `Generating`.
    pub open spec fn held(self) -> C {
        match self {
            ChunkState::Generating => arbitrary(),
            ChunkState::Stasis { chunk } => chunk,
            ChunkState::Active { chunk } => chunk,
        }
    }

    /// Whether the chunk that the state holds, if any, is well formed.
    pub open spec fn wf(self) -> bool {
        self.present() ==> self.held().wf()
    }

    /// Whether the two states carry the same tag.
    pub open spec fn same_tag(self, other: ChunkState<C>) -> bool {
        (self is Generating <==> other is Generating) && (self is Stasis <==> other is Stasis)
            && (self is Active <==> other is Active)
    }

    /// Whether the state holds a chunk.
    pub fn is_present(&self) -> (r: bool)
        ensures
            r == self.present(),
    {
        match self {
            ChunkState::Generating => false,
            _ => true,
        }
    }

    /// The chunk that the state holds, if any.
    pub fn chunk(&self) -> (r: Option<&C>)
        ensures
            match r {
                Some(c) => self.present() && *c == self.held(),
                None => !self.present(),
            },
    {
        match self {
            ChunkState::Generating => None,
            ChunkState::Stasis { chunk } => Some(chunk),
            ChunkState::Active { chunk } => Some(chunk),
        }
    }
}

/// A block to be written: the chunk, the cell within it, the block.
pub type Edit = (ChunkPosition, LocalPosition, Block);

/// The chunks of a world by position, with what changed in the current
/// tick and the edits that wait for their chunk.
pub struct Dimension<C: Chunk> {
    pub chunks: PositionMap<ChunkState<C>>,
    /// Edits that came before their chunk held data.
    pub blocks_buffer: Vec<Edit>,
    /// Chunks whose blocks changed in this tick.
    pub chunk_updated: PositionSet,
    /// Per chunk, the faces whose border changed, one bit per direction.
    pub chunk_border_changed: PositionMap<u8>,
    /// Chunks that became active in this tick.
    pub chunk_activations: PositionSet,
}

/// The blocks of a chunk at `p` with level `lod` after the edits `edits`,
/// applied in order: an edit counts if it names the chunk and a cell inside
/// it.
pub open spec fn edited_blocks(blocks: Seq<Block>, lod: nat, p: ChunkPosition,
    edits: Seq<Edit>) -> Seq<
    Block,
>
    decreases edits.len(),
{
    if edits.len() == 0 {
        blocks
    } else {
        let e = edits.last();
        let prev = edited_blocks(blocks, lod, p, edits.drop_last());
        if e.0 == p && e.1.within(axis_of(lod)) {
            prev.update(linear_index(axis_of(lod), e.1), e.2)
        } else {
            prev
        }
    }
}

/// The edits of the buffer that wait for another chunk than the one at
/// `position`, in their order.
pub open spec fn waiting_elsewhere(buffer: Seq<Edit>, position: ChunkPosition) -> Seq<Edit> {
    buffer.filter(|e: Edit| e.0 != position)
}

/// Whether `after` is the dimension `before` once the chunk `chunk`, which
/// just got its data, was taken in at `position`: the chunk stands there in
/// stasis with the edits that waited for it written into it in their order,
/// those edits have left the buffer, the position is marked as updated, and
/// every other chunk is as it was.
pub open spec fn taken_in<C: Chunk>(
    before: &Dimension<C>,
    after: &Dimension<C>,
    position: ChunkPosition,
    chunk: C,
) -> bool {
    &&& after.chunks@.dom() == before.chunks@.dom().insert(position)
    &&& forall|q: ChunkPosition|
        q != position && before.chunks@.contains_key(q) ==> #[trigger] after.chunks@[q]
            == before.chunks@[q]
    &&& after.chunks@[position] is Stasis
    &&& after.chunks@[position].held().lod() == chunk.lod()
    &&& after.chunks@[position].held().blocks() == edited_blocks(
        chunk.blocks(),
        chunk.lod(),
        position,
        before.blocks_buffer@,
    )
    &&& after.blocks_buffer@ == waiting_elsewhere(before.blocks_buffer@, position)
    &&& after.chunk_updated@ == before.chunk_updated@.insert(position)
    &&& after.chunk_border_changed == before.chunk_border_changed
    &&& after.chunk_activations == before.chunk_activations
}

/// Whether `after` is the dimension `before` once the edits `edits` were
/// written: the same chunks stand at the same positions in the same states,
/// each chunk with data holds the blocks that the edits leave in it, the
/// chunks with data that an edit names are marked as updated, and every edit
/// for a chunk without data waits in the buffer.
pub open spec fn edits_applied<C: Chunk>(before: &Dimension<C>, after: &Dimension<C>,
    edits: Seq<Edit>) -> bool {
    &&& after.chunks@.dom() == before.chunks@.dom()
    &&& forall|p: ChunkPosition| #[trigger]
        before.chunks@.contains_key(p) ==> after.chunks@[p].same_tag(before.chunks@[p])
    &&& forall|p: ChunkPosition| #[trigger]
        before.present_at(p) ==> after.chunks@[p].held().lod() == before.chunks@[p].held().lod()
            && after.chunks@[p].held().blocks() == edited_blocks(
            before.chunks@[p].held().blocks(),
            before.chunks@[p].held().lod(),
            p,
            edits,
        )
    &&& forall|p: ChunkPosition| #[trigger]
        after.chunk_updated@.contains(p) <==> before.chunk_updated@.contains(p) || (
        before.present_at(p) && names_chunk(edits, p))
    &&& forall|e: Edit| #[trigger]
        after.blocks_buffer@.contains(e) <==> before.blocks_buffer@.contains(e) || (
        !before.present_at(e.0) && edits.contains(e))
    &&& after.chunk_border_changed == before.chunk_border_changed
    &&& after.chunk_activations == before.chunk_activations
}

impl<C: Chunk> Dimension<C> {
    /// The collections are consistent and every chunk held is well formed.
    pub open spec fn wf(&self) -> bool {
        &&& self.chunks.wf()
        &&& self.chunk_updated.wf()
        &&& self.chunk_border_changed.wf()
        &&& self.chunk_activations.wf()
        &&& forall|p: ChunkPosition| #[trigger]
            self.chunks@.contains_key(p) ==> self.chunks@[p].wf()
    }

    /// Whether a chunk with data stands at `p`.
    pub open spec fn present_at(&self, p: ChunkPosition) -> bool {
        self.chunks@.contains_key(p) && self.chunks@[p].present()
    }

    pub fn new() -> (r: Dimension<C>)
        ensures
            r.wf(),
            r.chunks@ == Map::<ChunkPosition, ChunkState<C>>::empty(),
            r.blocks_buffer@.len() == 0,
            r.chunk_updated@ == Set::<ChunkPosition>::empty(),
            r.chunk_border_changed@ == Map::<ChunkPosition, u8>::empty(),
            r.chunk_activations@ == Set::<ChunkPosition>::empty(),
    {
        Dimension {
            chunks: PositionMap::new(),
            blocks_buffer: Vec::new(),
            chunk_updated: PositionSet::new(),
            chunk_border_changed: PositionMap::new(),
            chunk_activations: PositionSet::new(),
        }
    }

    pub fn get_chunks(&self) -> (r: &PositionMap<ChunkState<C>>)
        ensures
            *r == self.chunks,
    {
        &self.chunks
    }

    pub fn get_chunks_mut(&mut self) -> (r: &mut PositionMap<ChunkState<C>>)
        ensures
            *r == old(self).chunks,
            *final(self) == (Dimension { chunks: *final(r), ..*old(self) }),
    {
        &mut self.chunks
    }

    pub fn get_chunk_border_change_mut(&mut self) -> (r: &mut PositionMap<u8>)
        ensures
            *r == old(self).chunk_border_changed,
            *final(self) == (Dimension { chunk_border_changed: *final(r), ..*old(self) }),
    {
        &mut self.chunk_border_changed
    }

    pub fn get_chunk_updated_mut(&mut self) -> (r: &mut PositionSet)
        ensures
            *r == old(self).chunk_updated,
            *final(self) == (Dimension { chunk_updated: *final(r), ..*old(self) }),
    {
        &mut self.chunk_updated
    }

    pub fn get_chunk_activations_mut(&mut self) -> (r: &mut PositionSet)
        ensures
            *r == old(self).chunk_activations,
            *final(self) == (Dimension { chunk_activations: *final(r), ..*old(self) }),
    {
        &mut self.chunk_activations
    }

    pub fn get_chunk_updated(&self) -> (r: &PositionSet)
        ensures
            *r == self.chunk_updated,
    {
        &self.chunk_updated
    }

    pub fn get_chunk_activations(&self) -> (r: &PositionSet)
        ensures
            *r == self.chunk_activations,
    {
        &self.chunk_activations
    }

    /// The chunk with data at `p`, if there is one.
    pub fn chunk_at(&self, p: ChunkPosition) -> (r: Option<&C>)
        requires
            self.wf(),
        ensures
            match r {
                Some(c) => self.present_at(p) && *c == self.chunks@[p].held() && c.wf(),
                None => !self.present_at(p),
            },
    {
        match self.chunks.get(p) {
            Some(state) => state.chunk(),
            None => None,
        }
    }

    /// Whether a chunk with data stands at `p`.
    pub fn is_present(&self, p: ChunkPosition) -> (r: bool)
        requires
            self.wf(),
        ensures
            r == self.present_at(p),
    {
        self.chunk_at(p).is_some()
    }

    /// Writes one block into the chunk at `p`, if a chunk with data stands
    /// there and the cell lies inside it, and says whether a chunk stands
    /// there.
    fn set_block(&mut self, p: ChunkPosition, local: LocalPosition, block: Block) -> (r: bool)
        requires
            old(self).wf(),
        ensures
            final(self).wf(),
            r == old(self).present_at(p),
            final(self).chunks@.dom() == old(self).chunks@.dom(),
            forall|q: ChunkPosition|
                q != p && old(self).chunks@.contains_key(q) ==> #[trigger] final(self).chunks@[q]
                    == old(self).chunks@[q],
            old(self).chunks@.contains_key(p) ==> final(self).chunks@[p].same_tag(
                old(self).chunks@[p],
            ),
            !r && old(self).chunks@.contains_key(p)
                ==> final(self).chunks@[p] == old(self).chunks@[p],
            r ==> final(self).chunks@[p].held().lod() == old(self).chunks@[p].held().lod()
                && final(self).chunks@[p].held().blocks() == (if local.within(
                axis_of(old(self).chunks@[p].held().lod()),
            ) {
                old(self).chunks@[p].held().blocks().update(
                    linear_index(axis_of(old(self).chunks@[p].held().lod()), local),
                    block,
                )
            } else {
                old(self).chunks@[p].held().blocks()
            }),
            final(self).blocks_buffer == old(self).blocks_buffer,
            final(self).chunk_updated == old(self).chunk_updated,
            final(self).chunk_border_changed == old(self).chunk_border_changed,
            final(self).chunk_activations == old(self).chunk_activations,
    {
        if !self.is_present(p) {
            return false;
        }
        let state: Option<ChunkState<C>> = self.chunks.remove(p);
        let next: ChunkState<C> = match state {
            Some(ChunkState::Stasis { chunk }) => {
                let mut chunk: C = chunk;
                write_block(&mut chunk, local, block);
                ChunkState::Stasis { chunk }
            },
            Some(ChunkState::Active { chunk }) => {
                let mut chunk: C = chunk;
                write_block(&mut chunk, local, block);
                ChunkState::Active { chunk }
            },
            _ => ChunkState::Generating,
        };
        self.chunks.insert(p, next);
        proof {
            assert(self.chunks@ =~= old(self).chunks@.insert(p, next));
            assert(self.chunks@.dom() =~= old(self).chunks@.dom());
            assert forall|q: ChunkPosition| #[trigger]
                self.chunks@.contains_key(q) implies self.chunks@[q].wf() by {
                if q != p {
                    assert(old(self).chunks@.contains_key(q));
                }
            }
        }
        true
    }

    /// Writes blocks into the chunks that hold data, in the order given, and
    /// keeps the others for later. A chunk named by an edit and present is
    /// marked as updated; an edit for a chunk without data joins the buffer
    /// unless it waits there already; an edit for a cell outside its chunk
    /// writes nothing.
    pub fn set_blocks(&mut self, blocks: &[Edit])
        requires
            old(self).wf(),
        ensures
            final(self).wf(),
            final(self).chunks@.dom() == old(self).chunks@.dom(),
            forall|p: ChunkPosition| #[trigger]
                old(self).chunks@.contains_key(p) ==> final(self).chunks@[p].same_tag(
                    old(self).chunks@[p],
                ),
            forall|p: ChunkPosition| #[trigger]
                old(self).present_at(p)
                    ==> final(self).chunks@[p].held().lod() == old(self).chunks@[p].held().lod()
                    && final(self).chunks@[p].held().blocks()
                    == edited_blocks(
                    old(self).chunks@[p].held().blocks(),
                    old(self).chunks@[p].held().lod(),
                    p,
                    blocks@,
                ),
            forall|p: ChunkPosition| #[trigger]
                final(self).chunk_updated@.contains(p) <==> old(self).chunk_updated@.contains(p)
                    || (old(self).present_at(p) && names_chunk(blocks@, p)),
            forall|e: Edit| #[trigger]
                final(self).blocks_buffer@.contains(e) <==> old(self).blocks_buffer@.contains(e)
                    || (!old(self).present_at(e.0) && blocks@.contains(e)),
            final(self).chunk_border_changed == old(self).chunk_border_changed,
            final(self).chunk_activations == old(self).chunk_activations,
            edits_applied(old(self), final(self), blocks@),
    {
        let mut k: usize = 0;
        while k < blocks.len()
            invariant
                k <= blocks@.len(),
                self.wf(),
                self.chunks@.dom() == old(self).chunks@.dom(),
                forall|p: ChunkPosition| #[trigger]
                    old(self).chunks@.contains_key(p) ==> self.chunks@[p].same_tag(
                        old(self).chunks@[p],
                    ),
                forall|p: ChunkPosition| #[trigger]
                    old(self).present_at(p)
                        ==> self.chunks@[p].held().lod() == old(self).chunks@[p].held().lod()
                        && self.chunks@[p].held().blocks() == edited_blocks(
                        old(self).chunks@[p].held().blocks(),
                        old(self).chunks@[p].held().lod(),
                        p,
                        blocks@.take(k as int),
                    ),
                forall|p: ChunkPosition| #[trigger]
                    self.chunk_updated@.contains(p) <==> old(self).chunk_updated@.contains(p) || (
                    old(self).present_at(p) && names_chunk(blocks@.take(k as int), p)),
                forall|e: Edit| #[trigger]
                    self.blocks_buffer@.contains(e) <==> old(self).blocks_buffer@.contains(e) || (
                    !old(self).present_at(e.0) && blocks@.take(k as int).contains(e)),
                self.chunk_border_changed == old(self).chunk_border_changed,
                self.chunk_activations == old(self).chunk_activations,
            decreases blocks@.len() - k,
        {
            let edit: Edit = blocks[k];
            let ghost before = *self;
            proof {
                assert(blocks@.take(k + 1).drop_last() =~= blocks@.take(k as int));
                assert(blocks@.take(k + 1).last() == edit);
                assert forall|p: ChunkPosition| #[trigger]
                    old(self).present_at(p) implies self.present_at(p) by {
                    assert(old(self).chunks@.contains_key(p));
                }
            }
            let written: bool = self.set_block(edit.0, edit.1, edit.2);
            if written {
                self.chunk_updated.insert(edit.0);
            } else if !buffer_holds(&self.blocks_buffer, edit) {
                self.blocks_buffer.push(edit);
            }
            proof {
                assert(written == old(self).present_at(edit.0)) by {
                    if old(self).chunks@.contains_key(edit.0) {
                        assert(self.chunks@[edit.0].same_tag(old(self).chunks@[edit.0]));
                    }
                }
                assert forall|p: ChunkPosition| #[trigger]
                    old(self).chunks@.contains_key(p) implies self.chunks@[p].same_tag(
                    old(self).chunks@[p],
                ) by {
                    assert(before.chunks@[p].same_tag(old(self).chunks@[p]));
                }
                assert forall|p: ChunkPosition| #[trigger]
                    old(self).present_at(p) implies self.chunks@[p].held().lod()
                        == old(self).chunks@[p].held().lod()
                        && self.chunks@[p].held().blocks() == edited_blocks(
                    old(self).chunks@[p].held().blocks(),
                    old(self).chunks@[p].held().lod(),
                    p,
                    blocks@.take(k + 1),
                ) by {
                    assert(old(self).chunks@.contains_key(p));
                    assert(before.chunks@[p].same_tag(old(self).chunks@[p]));
                }
                assert forall|p: ChunkPosition| #[trigger]
                    self.chunk_updated@.contains(p) <==> old(self).chunk_updated@.contains(p) || (
                    old(self).present_at(p) && names_chunk(blocks@.take(k + 1), p)) by {
                    let t0 = blocks@.take(k as int);
                    let t1 = blocks@.take(k + 1);
                    assert(t1[k as int] == edit);
                    if names_chunk(t0, p) {
                        let j = choose|j: int| 0 <= j < t0.len() && (#[trigger] t0[j]).0 == p;
                        assert(t1[j].0 == p);
                    }
                    if names_chunk(t1, p) && p != edit.0 {
                        let j = choose|j: int| 0 <= j < t1.len() && (#[trigger] t1[j]).0 == p;
                        assert(t0[j].0 == p);
                    }
                    assert(before.chunk_updated@.contains(p)
                        <==> old(self).chunk_updated@.contains(p) || (old(self).present_at(p)
                        && names_chunk(
                        t0,
                        p,
                    )));
                }
                assert forall|e: Edit| #[trigger]
                    self.blocks_buffer@.contains(e) <==> old(self).blocks_buffer@.contains(e) || (
                    !old(self).present_at(e.0) && blocks@.take(k + 1).contains(e)) by {
                    let t0 = blocks@.take(k as int);
                    let t1 = blocks@.take(k + 1);
                    assert(t1 =~= t0.push(edit));
                    if t1.contains(e) {
                        let j = t1.index_of(e);
                        if j < k {
                            assert(t0[j] == e);
                        }
                    }
                    if t0.contains(e) {
                        let j = t0.index_of(e);
                        assert(t1[j] == e);
                    }
                    assert(t1[k as int] == edit);
                    if !written && !before.blocks_buffer@.contains(edit) {
                        assert(self.blocks_buffer@ == before.blocks_buffer@.push(edit));
                        assert(self.blocks_buffer@[before.blocks_buffer@.len() as int] == edit);
                        if before.blocks_buffer@.contains(e) {
                            let j = before.blocks_buffer@.index_of(e);
                            assert(self.blocks_buffer@[j] == e);
                        }
                        if self.blocks_buffer@.contains(e) {
                            let j = self.blocks_buffer@.index_of(e);
                            if j < before.blocks_buffer@.len() {
                                assert(before.blocks_buffer@[j] == e);
                            }
                        }
                    }
                }
            }
            k = k + 1;
        }
        proof {
            assert(blocks@.take(blocks@.len() as int) =~= blocks@);
        }
    }

    /// Puts a chunk that just got its data into the dimension, in stasis.
    /// The edits that waited for it are written into it, in the order in
    /// which they came, and leave the buffer; an edit for a cell outside the
    /// chunk writes nothing. The position is marked as updated.
    pub fn take_in(&mut self, position: ChunkPosition, chunk: C)
        requires
            old(self).wf(),
            chunk.wf(),
        ensures
            final(self).wf(),
            taken_in(old(self), final(self), position, chunk),
    {
        let mut chunk: C = chunk;
        let ghost start = chunk;
        let mut waiting: Vec<Edit> = Vec::new();
        std::mem::swap(&mut self.blocks_buffer, &mut waiting);
        let mut k: usize = 0;
        proof {
            reveal(Seq::filter);
            assert(waiting_elsewhere(waiting@.take(0), position) =~= Seq::<Edit>::empty());
        }
        while k < waiting.len()
            invariant
                k <= waiting@.len(),
                waiting@ == old(self).blocks_buffer@,
                chunk.wf(),
                chunk.lod() == start.lod(),
                chunk.blocks() == edited_blocks(
                    start.blocks(),
                    start.lod(),
                    position,
                    waiting@.take(k as int),
                ),
                self.blocks_buffer@ == waiting_elsewhere(waiting@.take(k as int), position),
                self.chunks == old(self).chunks,
                self.chunk_updated == old(self).chunk_updated,
                self.chunk_border_changed == old(self).chunk_border_changed,
                self.chunk_activations == old(self).chunk_activations,
            decreases waiting@.len() - k,
        {
            let edit: Edit = waiting[k];
            proof {
                assert(waiting@.take(k + 1).drop_last() =~= waiting@.take(k as int));
                assert(waiting@.take(k + 1).last() == edit);
                reveal(Seq::filter);
            }
            if edit.0 == position {
                write_block(&mut chunk, edit.1, edit.2);
            } else {
                self.blocks_buffer.push(edit);
            }
            k = k + 1;
        }
        proof {
            assert(waiting@.take(waiting@.len() as int) =~= waiting@);
        }
        self.chunks.insert(position, ChunkState::Stasis { chunk });
        self.chunk_updated.insert(position);
        proof {
            assert(self.chunks@.dom() =~= old(self).chunks@.dom().insert(position));
            assert forall|q: ChunkPosition| #[trigger]
                self.chunks@.contains_key(q) implies self.chunks@[q].wf() by {
                if q != position {
                    assert(old(self).chunks@.contains_key(q));
                }
            }
        }
    }

    /// The chunk that holds the world cell `position` and the cell's place
    /// in it, provided a chunk with data stands there.
    pub fn locate(&self, position: WorldPosition) -> (r: Option<(ChunkPosition, LocalPosition)>)
        requires
            self.wf(),
        ensures
            match r {
                Some((chunk, local)) => chunk == chunk_of_cell(position) && local == local_of_cell(
                    position,
                ) && self.present_at(chunk),
                None => !self.present_at(chunk_of_cell(position)),
            },
    {
        let chunk: ChunkPosition = ChunkPosition {
            x: floor_div(position.x, 32),
            y: floor_div(position.y, 32),
            z: floor_div(position.z, 32),
        };
        if !self.is_present(chunk) {
            return None;
        }
        let local: LocalPosition = LocalPosition {
            x: floor_mod(position.x, 32),
            y: floor_mod(position.y, 32),
            z: floor_mod(position.z, 32),
        };
        Some((chunk, local))
    }
}

/// Whether one of the edits names the chunk at `p`.
pub open spec fn names_chunk(edits: Seq<Edit>, p: ChunkPosition) -> bool {
    exists|j: int| 0 <= j < edits.len() && (#[trigger] edits[j]).0 == p
}

/// The chunk that holds the world cell `p`: each coordinate divided by the
/// chunk's edge, rounded down.
pub open spec fn chunk_of_cell(p: WorldPosition) -> ChunkPosition {
    ChunkPosition { x: (p.x / 32) as isize, y: (p.y / 32) as isize, z: (p.z / 32) as isize }
}

/// The place of the world cell `p` in its chunk: each coordinate modulo the
/// chunk's edge, never negative.
pub open spec fn local_of_cell(p: WorldPosition) -> LocalPosition {
    LocalPosition { x: (p.x % 32) as usize, y: (p.y % 32) as usize, z: (p.z % 32) as usize }
}

/// Whether `edit` waits in `buffer`.
fn buffer_holds(buffer: &Vec<Edit>, edit: Edit) -> (r: bool)
    ensures
        r == buffer@.contains(edit),
{
    let mut i: usize = 0;
    while i < buffer.len()
        invariant
            i <= buffer@.len(),
            forall|k: int| 0 <= k < i ==> buffer@[k] != edit,
        decreases buffer@.len() - i,
    {
        let held: Edit = buffer[i];
        if held.0 == edit.0 && held.1 == edit.1 && held.2 == edit.2 {
            return true;
        }
        i = i + 1;
    }
    false
}

/// Writes `block` at `local` if the cell lies inside the chunk.
fn write_block<C: Chunk>(chunk: &mut C, local: LocalPosition, block: Block) -> (r: Option<
    TileTransition,
>)
    requires
        old(chunk).wf(),
    ensures
        final(chunk).wf(),
        final(chunk).lod() == old(chunk).lod(),
        final(chunk).blocks() == (if local.within(axis_of(old(chunk).lod())) {
            old(chunk).blocks().update(linear_index(axis_of(old(chunk).lod()), local), block)
        } else {
            old(chunk).blocks()
        }),
{
    let lod: usize = chunk.lod_level();
    let size: usize = chunk.size();
    proof {
        lemma_lod_table(lod as nat);
    }
    let axis: LocalPosition = chunk_axis(lod);
    if local.x < axis.x && local.y < axis.y && local.z < axis.z {
        proof {
            lemma_linear_index_bound(axis, local);
        }
        let i: usize = linearize(axis, local);
        chunk.put_block(i, block)
    } else {
        None
    }
}

/// The chunk and cell that a finished ray points at: the cell of the block
/// it found, or the last free cell before it, provided the ray found a block
/// and a chunk with data holds the cell.
pub fn raycast<C: Chunk>(this: &Dimension<C>, target: Target, ray: Ray) -> (r: Option<
    (ChunkPosition, LocalPosition),
>)
    requires
        this.wf(),
    ensures
        match hit_of(this, ray) {
            Some(h) => ({
                let cell = match target {
                    Target::Position => h.position,
                    Target::Backstep => h.back_step,
                };
                match r {
                    Some((chunk, local)) => chunk == chunk_of_cell(cell) && local == local_of_cell(
                        cell,
                    ) && this.present_at(chunk),
                    None => !this.present_at(chunk_of_cell(cell)),
                }
            }),
            None => r.is_none(),
        },
{
    let found: Option<Hit> = hit(ray, &this.chunks);
    match found {
        Some(h) => {
            let cell: WorldPosition = match target {
                Target::Position => h.position,
                Target::Backstep => h.back_step,
            };
            this.locate(cell)
        },
        None => None,
    }
}

/// What `hit` reports for the ray in the dimension.
pub open spec fn hit_of<C: Chunk>(this: &Dimension<C>, ray: Ray) -> Option<Hit> {
    crate::world::raycast::hit_result(ray, this.chunks@)
}

} // verus!
