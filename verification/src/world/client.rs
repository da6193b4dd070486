use vstd::prelude::*;

use crate::util::bits::{
    bit_set, lemma_bits_decide, lemma_with_bit, test_bit, with_bit, write_bit,
};
use crate::util::rle::{checked_decode, decoded, well_formed};
use crate::world::ambient::{
    ambient_value, border_values, calc_ambient_between_chunk_neighbors, calc_ambient_inside_chunk,
    hood_min, hood_reach, hood_samples, hood_wf, inside_ambient,
    set_ambient_between_chunk_neighbors, with_ambient, world_cell, PolyAmbientValues,
};
use crate::world::block::Block;
use crate::world::chunk::{Chunk, ClientBlockInfo, ClientChunk};
use crate::world::dimension::{ChunkState, Dimension};
use crate::world::direction::Direction;
use crate::world::lookup::{PositionMap, PositionSet};
use crate::world::position::ChunkPosition;
use crate::world::refresh::{refresh_cells, refreshed};
use crate::world::server::{ChunkActivated, ChunkUpdated};
use crate::world::settled::{
    face_step, lemma_masks_kept_chain, lemma_next_to, lemma_step_keeps, lemma_step_settles,
    lemma_step_touches, masks_kept, next_to, pair_settled, step_touch, WorldView,
};
use crate::world::structure::{
    axis_len, cell_inside, chunk_size, index_cell, lemma_index_cell, lemma_lod_table, volume,
    CHUNK_SIZE, MAX_LOD,
};
use crate::world::visibility::{
    calc_block_visible_mask_between_chunks, calc_block_visible_mask_inside_chunk, neighbor,
    neighbor_of, on_face, open_inside, resolved, same_blocks, step,
};

verus! {

/// The most chunks that leave a pending set in one tick.
pub const MAX_PROCESS: usize = 50;

/// Work for the background: blocks to be put into a fresh chunk, whose
/// inner visibility and brightness are then to be derived.
pub struct InternalReq {
    pub position: ChunkPosition,
    pub blocks: Vec<Block>,
    pub chunk: ClientChunk,
}

/// What the background hands back: the chunk filled and derived, and
/// whether it holds nothing but blocks one can see through.
pub struct InternalResp {
    pub position: ChunkPosition,
    pub chunk: ClientChunk,
    pub all_transparent: bool,
}

impl InternalReq {
    /// The chunk is well formed, nothing is resolved in it yet, and there is
    /// a block for each of its cells.
    pub open spec fn wf(&self) -> bool {
        &&& self.chunk.wf()
        &&& self.chunk.neighbor_direction_visibility_mask == 0
        &&& self.chunk.neighbor_direction_ao_mask == 0
        &&& self.blocks@.len() >= self.chunk@.len()
    }

    /// Whether the request is well formed.
    pub fn is_valid(&self) -> (r: bool)
        ensures
            r == self.wf(),
    {
        if self.chunk.lod > MAX_LOD {
            return false;
        }
        proof {
            lemma_lod_table(self.chunk.lod as nat);
        }
        self.chunk.data.len() == chunk_size(self.chunk.lod)
            && self.chunk.neighbor_direction_visibility_mask == 0
            && self.chunk.neighbor_direction_ao_mask == 0 && self.blocks.len()
            >= self.chunk.data.len()
    }
}

impl InternalResp {
    /// The chunk is well formed and nothing is resolved in it yet.
    pub open spec fn wf(&self) -> bool {
        &&& self.chunk.wf()
        &&& self.chunk.neighbor_direction_visibility_mask == 0
        &&& self.chunk.neighbor_direction_ao_mask == 0
    }

    /// Whether the response is well formed.
    pub fn is_valid(&self) -> (r: bool)
        ensures
            r == self.wf(),
    {
        if self.chunk.lod > MAX_LOD {
            return false;
        }
        proof {
            lemma_lod_table(self.chunk.lod as nat);
        }
        self.chunk.data.len() == chunk_size(self.chunk.lod)
            && self.chunk.neighbor_direction_visibility_mask == 0
            && self.chunk.neighbor_direction_ao_mask == 0
    }
}

/// Whether the entry `info` of the cell `i` holds what the chunk's own
/// blocks decide: the mask of `calc_block_visible_mask_inside_chunk`, and
/// the brightness of `calc_ambient_inside_chunk`, or full brightness on
/// every face if none of the cell's faces shows.
pub open spec fn derived_cell(cells: Seq<ClientBlockInfo>, n: nat, i: int,
    info: ClientBlockInfo) -> bool {
    &&& forall|d: Direction|
        bit_set(info.visible_mask, #[trigger] d.index() as u8) == open_inside(cells, n, i, d)
    &&& bit_set(info.visible_mask, 6)
    &&& bit_set(info.visible_mask, 7)
    &&& forall|d: Direction|
        info.ambient[#[trigger] d.index() as int] == (if info.visible_mask & 63 == 0 {
            0xFFu8
        } else {
            inside_ambient(cells, n, index_cell(n, i), d)
        })
}

/// Whether `cells` are the blocks `blocks`, each with what the blocks of
/// the chunk decide for it.
pub open spec fn derived_from(cells: Seq<ClientBlockInfo>, lod: nat, blocks: Seq<Block>) -> bool {
    &&& cells.len() == volume(lod)
    &&& blocks.len() >= cells.len()
    &&& forall|i: int| 0 <= i < cells.len() ==> (#[trigger] cells[i]).block == blocks[i]
    &&& forall|i: int|
        0 <= i < cells.len() ==> derived_cell(cells, axis_len(lod), i, #[trigger] cells[i])
}

/// Whether one of the cells holds a block other than air.
pub open spec fn holds_block(cells: Seq<ClientBlockInfo>) -> bool {
    exists|i: int| 0 <= i < cells.len() && (#[trigger] cells[i]).block != Block::Air
}

/// Whether the response says of its chunk what the chunk holds: a chunk said
/// to hold nothing but blocks one can see through holds only air.
pub open spec fn honest(resp: InternalResp) -> bool {
    resp.all_transparent ==> !holds_block(resp.chunk@)
}

/// Whether none of the first `n` blocks is opaque.
pub open spec fn all_clear(blocks: Seq<Block>, n: nat) -> bool {
    forall|i: int| 0 <= i < n ==> !(#[trigger] blocks[i]).opaque()
}

/// What is derived inside a chunk depends on its blocks alone.
pub proof fn lemma_derived_blocks(a: Seq<ClientBlockInfo>, b: Seq<ClientBlockInfo>, n: nat, i: int,
    d: Direction)
    requires
        same_blocks(a, b),
        n <= 32,
        a.len() == n * n * n,
    ensures
        open_inside(a, n, i, d) == open_inside(b, n, i, d),
        inside_ambient(a, n, index_cell(n, i), d) == inside_ambient(b, n, index_cell(n, i), d),
{
    reveal(inside_ambient);
    let p = index_cell(n, i);
    let q = step(p, d);
    if cell_inside(n, q) {
        crate::world::structure::lemma_cell_index(n, q);
    }
    let sa = crate::world::ambient::inside_samples(a, n, p, d);
    let sb = crate::world::ambient::inside_samples(b, n, p, d);
    assert(sa =~= sb) by {
        assert forall|k: int| 0 <= k < 8 implies sa[k] == sb[k] by {
            let c = crate::world::ambient::plus(p, crate::world::ambient::ao_offset(d, k));
            if cell_inside(n, c) {
                crate::world::structure::lemma_cell_index(n, c);
            }
        }
    }
}

/// Fills the chunk of a request with the request's blocks and derives, for
/// a chunk that holds anything opaque, every cell's inner visibility and
/// brightness.
pub fn internal(req: InternalReq) -> (resp: InternalResp)
    requires
        req.wf(),
    ensures
        resp.wf(),
        resp.position == req.position,
        resp.chunk.same_frame(&req.chunk),
        resp.all_transparent == all_clear(req.blocks@, req.chunk@.len()),
        honest(resp),
        forall|i: int|
            0 <= i < resp.chunk@.len() ==> (#[trigger] resp.chunk@[i]).block == req.blocks@[i],
        !resp.all_transparent ==> derived_from(resp.chunk@, resp.chunk.level(), req.blocks@),
        resp.all_transparent ==> forall|i: int|
            0 <= i < resp.chunk@.len() ==> (#[trigger] resp.chunk@[i]).visible_mask
                == req.chunk@[i].visible_mask && resp.chunk@[i].ambient == req.chunk@[i].ambient,
{
    let InternalReq { position, blocks, chunk } = req;
    let mut chunk: ClientChunk = chunk;
    let ghost lod = chunk.level();
    let ghost n = axis_len(lod);
    proof {
        lemma_lod_table(lod);
    }
    let size: usize = chunk.size();
    let mut clear: bool = true;
    let mut i: usize = 0;
    while i < size
        invariant
            i <= size,
            size == chunk@.len(),
            size == req.chunk@.len(),
            blocks@.len() >= size,
            blocks == req.blocks,
            chunk.wf(),
            chunk.same_frame(&req.chunk),
            clear == all_clear(blocks@, i as nat),
            forall|k: int| 0 <= k < i ==> (#[trigger] chunk@[k]).block == blocks@[k],
            forall|k: int|
                0 <= k < size ==> (#[trigger] chunk@[k]).visible_mask == req.chunk@[k].visible_mask
                    && chunk@[k].ambient == req.chunk@[k].ambient,
        decreases size - i,
    {
        let block: Block = blocks[i];
        chunk.put_block(i, block);
        if block.is_opaque() {
            clear = false;
        }
        i = i + 1;
    }
    if !clear {
        let ghost filled = chunk@;
        let mut i: usize = 0;
        while i < size
            invariant
                i <= size,
                size == chunk@.len(),
                size == n * n * n,
                n == axis_len(lod),
                n <= 32,
                lod == chunk.level(),
                chunk.wf(),
                chunk.same_frame(&req.chunk),
                filled.len() == size,
                same_blocks(filled, chunk@),
                forall|k: int| 0 <= k < size ==> (#[trigger] filled[k]).block == blocks@[k],
                forall|k: int| 0 <= k < i ==> derived_cell(filled, n, k, #[trigger] chunk@[k]),
            decreases size - i,
        {
            let visible_mask: u8 = calc_block_visible_mask_inside_chunk(&chunk, i);
            let ambient: [u8; 6] = if visible_mask & 63 == 0 {
                [0xFF, 0xFF, 0xFF, 0xFF, 0xFF, 0xFF]
            } else {
                calc_ambient_inside_chunk(&chunk, i)
            };
            let mut info: ClientBlockInfo = *chunk.get(i);
            info.visible_mask = visible_mask;
            info.ambient = ambient;
            proof {
                assert forall|d: Direction|
                    bit_set(info.visible_mask, #[trigger] d.index() as u8) == open_inside(
                        filled,
                        n,
                        i as int,
                        d,
                    ) by {
                    lemma_derived_blocks(filled, chunk@, n, i as int, d);
                }
                assert forall|d: Direction|
                    info.ambient[#[trigger] d.index() as int] == (if info.visible_mask & 63 == 0 {
                        0xFFu8
                    } else {
                        inside_ambient(filled, n, index_cell(n, i as int), d)
                    }) by {
                    lemma_derived_blocks(filled, chunk@, n, i as int, d);
                }
            }
            chunk.set(i, info);
            i = i + 1;
        }
        proof {
            assert forall|k: int| 0 <= k < size implies derived_cell(
                chunk@,
                n,
                k,
                #[trigger] chunk@[k],
            ) by {
                assert(derived_cell(filled, n, k, chunk@[k]));
                assert forall|d: Direction|
                    bit_set(chunk@[k].visible_mask, #[trigger] d.index() as u8) == open_inside(
                        chunk@,
                        n,
                        k,
                        d,
                    ) by {
                    lemma_derived_blocks(filled, chunk@, n, k, d);
                }
                assert forall|d: Direction|
                    chunk@[k].ambient[#[trigger] d.index() as int] == (if chunk@[k].visible_mask
                        & 63 == 0 {
                        0xFFu8
                    } else {
                        inside_ambient(chunk@, n, index_cell(n, k), d)
                    }) by {
                    lemma_derived_blocks(filled, chunk@, n, k, d);
                }
            }
        }
    }
    InternalResp { position, chunk, all_transparent: clear }
}

/// The client's side of the world: the chunks it holds and the two sets of
/// chunks that still wait, one for the faces shared with their neighbours
/// and one for the brightness along their borders.
pub struct ClientWorld {
    pub dimension: Dimension<ClientChunk>,
    pub needs_visibility: PositionSet,
    pub needs_ao: PositionSet,
}

/// What a chunk state must satisfy in a client world: a chunk that it holds
/// is well formed and uses only the six direction bits of its two masks; a
/// chunk in stasis that no longer waits for something has all six bits of
/// the matching mask set; and a chunk whose faces are all resolved for
/// brightness has them all resolved for visibility.
pub open spec fn state_ok(state: ChunkState<ClientChunk>, waits_visibility: bool,
    waits_ao: bool) -> bool {
    state.present() ==> {
        &&& state.held().wf()
        &&& state.held().neighbor_direction_visibility_mask < 64
        &&& state.held().neighbor_direction_ao_mask < 64
        &&& (state is Stasis && !waits_visibility
            ==> state.held().neighbor_direction_visibility_mask == 63)
        &&& (state is Stasis && !waits_ao ==> state.held().neighbor_direction_ao_mask == 63)
        &&& (state.held().neighbor_direction_ao_mask == 63
            ==> state.held().neighbor_direction_visibility_mask == 63)
    }
}

/// What a message that activates a chunk decodes to, if it can be taken:
/// the level and the blocks. A message is taken if its level is one that
/// exists, its bytes can be expanded, and they hold at least the blocks of a
/// chunk of that level and no more than those of a full chunk.
pub open spec fn activation_blocks(lod: usize, bytes: Seq<u8>) -> Option<(nat, Seq<Block>)> {
    if lod <= MAX_LOD && well_formed(bytes) && volume(lod as nat) <= decoded(bytes).len()
        <= CHUNK_SIZE {
        Some((lod as nat, decoded(bytes)))
    } else {
        None
    }
}

/// Whether no cell has anything derived yet: no face shows and every
/// brightness is zero.
pub open spec fn nothing_derived(cells: Seq<ClientBlockInfo>) -> bool {
    forall|i: int|
        0 <= i < cells.len() ==> (#[trigger] cells[i]).visible_mask == 0 && cells[i].ambient@
            == seq![0u8, 0u8, 0u8, 0u8, 0u8, 0u8]
}

impl ClientWorld {
    pub open spec fn wf(&self) -> bool {
        &&& self.dimension.wf()
        &&& self.needs_visibility.wf()
        &&& self.needs_ao.wf()
        &&& forall|p: ChunkPosition| #[trigger]
            self.dimension.chunks@.contains_key(p) ==> state_ok(
                self.dimension.chunks@[p],
                self.needs_visibility@.contains(p),
                self.needs_ao@.contains(p),
            )
    }

    /// Whether the chunk at `p` is ready to become active: it is in stasis
    /// and waits for nothing.
    pub open spec fn ripe(&self, p: ChunkPosition) -> bool {
        &&& self.dimension.chunks@.contains_key(p)
        &&& self.dimension.chunks@[p] is Stasis
        &&& !self.needs_ao@.contains(p)
        &&& !self.needs_visibility@.contains(p)
    }

    /// Whether `other` differs from this world in its chunk map at most.
    pub open spec fn same_but_chunks(&self, other: &ClientWorld) -> bool {
        &&& self.needs_visibility == other.needs_visibility
        &&& self.needs_ao == other.needs_ao
        &&& self.dimension.blocks_buffer == other.dimension.blocks_buffer
        &&& self.dimension.chunk_updated == other.dimension.chunk_updated
        &&& self.dimension.chunk_border_changed == other.dimension.chunk_border_changed
        &&& self.dimension.chunk_activations == other.dimension.chunk_activations
    }

    pub fn new() -> (r: ClientWorld)
        ensures
            r.wf(),
            r.dimension.chunks@ == Map::<ChunkPosition, ChunkState<ClientChunk>>::empty(),
            r.needs_visibility@ == Set::<ChunkPosition>::empty(),
            r.needs_ao@ == Set::<ChunkPosition>::empty(),
    {
        ClientWorld {
            dimension: Dimension::new(),
            needs_visibility: PositionSet::new(),
            needs_ao: PositionSet::new(),
        }
    }

    /// Takes a message that activates the chunk at `position`: the bytes are
    /// expanded, the chunk is marked as being generated, and the work of
    /// filling and deriving it is handed out. A message with a level that
    /// does not exist, or whose bytes cannot be expanded or hold too few or
    /// too many blocks, is dropped and changes nothing.
    pub fn recv_chunk_activations(&mut self, position: ChunkPosition, lod: usize,
        bytes: &[u8]) -> (r: Option<
        InternalReq,
    >)
        requires
            old(self).wf(),
        ensures
            final(self).wf(),
            activation_received(old(self), final(self), position, lod, bytes@, r),
    {
        if lod > MAX_LOD {
            return None;
        }
        let blocks: Vec<Block> = match checked_decode(bytes, CHUNK_SIZE) {
            Ok(blocks) => blocks,
            Err(_) => {
                return None;
            },
        };
        let chunk: ClientChunk = ClientChunk::new(lod);
        if blocks.len() < chunk.size() {
            return None;
        }
        proof {
            assert forall|i: int| 0 <= i < chunk@.len() implies (#[trigger] chunk@[i]).block
                == Block::Air by {
                assert(chunk.blocks()[i] == Block::Air);
            }
        }
        self.dimension.chunks.insert(position, ChunkState::Generating);
        proof {
            assert forall|p: ChunkPosition| #[trigger]
                self.dimension.chunks@.contains_key(p) implies self.dimension.chunks@[p].wf()
                && state_ok(
                self.dimension.chunks@[p],
                self.needs_visibility@.contains(p),
                self.needs_ao@.contains(p),
            ) by {
                if p != position {
                    assert(old(self).dimension.chunks@.contains_key(p));
                }
            }
        }
        Some(InternalReq { position, blocks, chunk })
    }

    /// Takes a chunk back from the background. A chunk of nothing but
    /// blocks one can see through becomes active at once; any other goes
    /// into stasis and waits for both its shared faces and its border
    /// brightness.
    pub fn calc_internal(&mut self, resp: InternalResp)
        requires
            old(self).wf(),
            resp.wf(),
        ensures
            final(self).wf(),
            response_taken(old(self), final(self), resp),
    {
        let InternalResp { position, chunk, all_transparent } = resp;
        if all_transparent {
            self.dimension.chunks.insert(position, ChunkState::Active { chunk });
        } else {
            self.dimension.chunks.insert(position, ChunkState::Stasis { chunk });
            self.needs_ao.insert(position);
            self.needs_visibility.insert(position);
        }
        proof {
            assert forall|p: ChunkPosition| #[trigger]
                self.dimension.chunks@.contains_key(p) implies self.dimension.chunks@[p].wf()
                && state_ok(
                self.dimension.chunks@[p],
                self.needs_visibility@.contains(p),
                self.needs_ao@.contains(p),
            ) by {
                if p != position {
                    assert(old(self).dimension.chunks@.contains_key(p));
                }
            }
        }
    }

    /// Takes a message that updates the chunk at `position`: an active
    /// chunk gets the blocks that the bytes expand to and is marked as
    /// updated; what was derived for its cells stays. A message for a chunk
    /// that is not active, or whose bytes cannot be expanded or hold too few
    /// or too many blocks, is dropped and changes nothing. Says whether the
    /// message was taken.
    pub fn recv_chunk_updates(&mut self, position: ChunkPosition, bytes: &[u8]) -> (taken: bool)
        requires
            old(self).wf(),
        ensures
            final(self).wf(),
            update_received(old(self), final(self), position, bytes@, taken),
    {
        let active: bool = match self.dimension.chunks.get(position) {
            Some(ChunkState::Active { .. }) => true,
            _ => false,
        };
        if !active {
            return false;
        }
        let blocks: Vec<Block> = match checked_decode(bytes, CHUNK_SIZE) {
            Ok(blocks) => blocks,
            Err(_) => {
                return false;
            },
        };
        let size: usize = match self.dimension.chunks.get(position) {
            Some(ChunkState::Active { chunk }) => chunk.size(),
            _ => 0,
        };
        if blocks.len() < size {
            return false;
        }
        let mut chunk: ClientChunk = match self.dimension.chunks.remove(position) {
            Some(ChunkState::Active { chunk }) => chunk,
            _ => ClientChunk::new(0),
        };
        let ghost start = chunk;
        let mut touched: Vec<bool> = Vec::new();
        let mut i: usize = 0;
        while i < size
            invariant
                i <= size,
                size == chunk@.len(),
                size == start@.len(),
                blocks@.len() >= size,
                chunk.wf(),
                chunk.same_frame(&start),
                touched@.len() == i,
                forall|k: int| 0 <= k < i ==> #[trigger] touched@[k] == (start@[k].block != blocks@[k]),
                forall|k: int|
                    0 <= k < i ==> #[trigger] chunk@[k] == (ClientBlockInfo {
                        block: blocks@[k],
                        ..start@[k]
                    }),
                forall|k: int| i <= k < size ==> #[trigger] chunk@[k] == start@[k],
            decreases size - i,
        {
            let block: Block = blocks[i];
            touched.push(!(chunk.get(i).block == block));
            chunk.put_block(i, block);
            i = i + 1;
        }
        proof {
            assert(chunk@ =~= with_blocks(start@, blocks@));
            assert(touched@ =~= touched_cells(start@, blocks@));
        }
        refresh_cells(&mut chunk, &touched);
        self.dimension.chunks.insert(position, ChunkState::Active { chunk });
        self.dimension.chunk_updated.insert(position);
        proof {
            assert(self.dimension.chunks@.dom() =~= old(self).dimension.chunks@.dom());
            assert forall|p: ChunkPosition| #[trigger]
                self.dimension.chunks@.contains_key(p) implies self.dimension.chunks@[p].wf()
                && state_ok(
                self.dimension.chunks@[p],
                self.needs_visibility@.contains(p),
                self.needs_ao@.contains(p),
            ) by {
                assert(old(self).dimension.chunks@.contains_key(p));
            }
        }
        true
    }

    /// Makes every chunk active that is in stasis and waits for nothing,
    /// and records it among the tick's activations. Such a chunk has all
    /// six faces resolved, for visibility and for brightness.
    pub fn activate(&mut self)
        requires
            old(self).wf(),
        ensures
            final(self).wf(),
            ripe_activated(old(self), final(self)),
    {
        let keys: Vec<ChunkPosition> = self.dimension.chunks.keys();
        let mut k: usize = 0;
        while k < keys.len()
            invariant
                k <= keys@.len(),
                keys@.no_duplicates(),
                forall|p: ChunkPosition|
                    keys@.contains(p) <==> old(self).dimension.chunks@.contains_key(p),
                self.wf(),
                self.needs_visibility == old(self).needs_visibility,
                self.needs_ao == old(self).needs_ao,
                self.dimension.blocks_buffer == old(self).dimension.blocks_buffer,
                self.dimension.chunk_updated == old(self).dimension.chunk_updated,
                self.dimension.chunk_border_changed == old(self).dimension.chunk_border_changed,
                self.dimension.chunks@.dom() == old(self).dimension.chunks@.dom(),
                forall|p: ChunkPosition| #[trigger]
                    old(self).dimension.chunks@.contains_key(p) ==> self.dimension.chunks@[p]
                        == (if old(self).ripe(p) && keys@.take(k as int).contains(p) {
                        ChunkState::Active { chunk: old(self).dimension.chunks@[p].held() }
                    } else {
                        old(self).dimension.chunks@[p]
                    }),
                forall|p: ChunkPosition| #[trigger]
                    self.dimension.chunk_activations@.contains(p)
                        <==> old(self).dimension.chunk_activations@.contains(p)
                        || (old(self).ripe(p)
                        && keys@.take(k as int).contains(p)),
            decreases keys@.len() - k,
        {
            let position: ChunkPosition = keys[k];
            proof {
                assert(keys@.contains(position));
                assert(old(self).dimension.chunks@.contains_key(position));
                assert(!keys@.take(k as int).contains(position)) by {
                    if keys@.take(k as int).contains(position) {
                        let j = keys@.take(k as int).index_of(position);
                        assert(keys@[j] == position);
                    }
                }
                assert forall|p: ChunkPosition|
                    keys@.take(k + 1).contains(p) <==> keys@.take(k as int).contains(p) || p
                        == position by {
                    let t0 = keys@.take(k as int);
                    let t1 = keys@.take(k + 1);
                    assert(t1 =~= t0.push(position));
                    if t0.contains(p) {
                        let j = t0.index_of(p);
                        assert(t1[j] == p);
                    }
                    if t1.contains(p) {
                        let j = t1.index_of(p);
                        if j < k {
                            assert(t0[j] == p);
                        }
                    }
                    assert(t1[k as int] == position);
                }
            }
            let in_stasis: bool = match self.dimension.chunks.get(position) {
                Some(ChunkState::Stasis { .. }) => true,
                _ => false,
            };
            if in_stasis && !self.needs_ao.contains(position) && !self.needs_visibility.contains(
                position,
            ) {
                let ghost before = self.dimension.chunks@;
                match self.dimension.chunks.remove(position) {
                    Some(ChunkState::Stasis { chunk }) => {
                        self.dimension.chunks.insert(position, ChunkState::Active { chunk });
                    },
                    _ => {},
                }
                self.dimension.chunk_activations.insert(position);
                proof {
                    assert(self.dimension.chunks@.dom() =~= old(self).dimension.chunks@.dom());
                    assert forall|p: ChunkPosition| #[trigger]
                        self.dimension.chunks@.contains_key(p) implies self.dimension.chunks@[p].wf()
                        && state_ok(
                        self.dimension.chunks@[p],
                        self.needs_visibility@.contains(p),
                        self.needs_ao@.contains(p),
                    ) by {
                        assert(before.contains_key(p));
                    }
                }
            }
            k = k + 1;
        }
        proof {
            assert(keys@.take(keys@.len() as int) =~= keys@);
            assert forall|p: ChunkPosition| #[trigger]
                old(self).ripe(p) implies old(self).dimension.chunks@[p].held().neighbor_direction_visibility_mask == 63 && old(self).dimension.chunks@[p].held().neighbor_direction_ao_mask == 63 by {
                assert(old(self).dimension.chunks@.contains_key(p));
            }
        }
    }
}

/// A mask below 64 with its six low bits set is 63, and setting one of the
/// six low bits of a mask below 64 leaves it below 64.
pub proof fn lemma_six_bits(mask: u8, k: u8)
    requires
        mask < 64,
        k < 6,
    ensures
        with_bit(mask, k, true) < 64,
        (forall|j: u8| j < 6 ==> bit_set(mask, j)) ==> mask == 63,
        mask == 63 ==> (forall|j: u8| j < 6 ==> bit_set(mask, j)),
{
    assert((mask | (1u8 << k)) < 64) by (bit_vector)
        requires
            mask < 64,
            k < 6,
    ;
    if forall|j: u8| j < 6 ==> bit_set(mask, j) {
        assert(bit_set(mask, 0) && bit_set(mask, 1) && bit_set(mask, 2) && bit_set(mask, 3)
            && bit_set(mask, 4) && bit_set(mask, 5));
        assert(mask == 63) by (bit_vector)
            requires
                mask < 64,
                (mask >> 0u8) & 1 == 1,
                (mask >> 1u8) & 1 == 1,
                (mask >> 2u8) & 1 == 1,
                (mask >> 3u8) & 1 == 1,
                (mask >> 4u8) & 1 == 1,
                (mask >> 5u8) & 1 == 1,
        ;
    }
    if mask == 63 {
        assert(forall|j: u8| j < 6 ==> (63u8 >> j) & 1 == 1) by (bit_vector);
    }
}

/// The chunks with data of a chunk map, each by its level and its cells.
pub open spec fn views(chunks: Map<ChunkPosition, ChunkState<ClientChunk>>) -> WorldView {
    Map::new(
        |q: ChunkPosition| chunks.contains_key(q) && chunks[q].present(),
        |q: ChunkPosition| (chunks[q].held().level(), chunks[q].held()@),
    )
}

/// The chunks with data of a chunk map from which the chunk at `p` was
/// taken out, together with that chunk.
pub open spec fn views_with(
    chunks: Map<ChunkPosition, ChunkState<ClientChunk>>,
    p: ChunkPosition,
    chunk: ClientChunk,
) -> WorldView {
    views(chunks).insert(p, (chunk.level(), chunk@))
}

/// The faces of the chunk at `q` that resolving the first `k` faces of the
/// chunk at `p` may write, `vis` being the visibility mask of that chunk
/// before: the faces of the chunk itself that were not resolved, and of a
/// chunk beside it the face towards it if the face across was not resolved.
pub open spec fn visit_touch(p: ChunkPosition, vis: u8, q: ChunkPosition, k: nat) -> spec_fn(
    Direction,
) -> bool {
    |d: Direction|
        if q == p {
            d.index() < k && !bit_set(vis, d.index() as u8)
        } else {
            next_to(q, d) == p && d.flipped().index() < k && !bit_set(
                vis,
                d.flipped().index() as u8,
            )
        }
}

/// The faces of the chunk at `q` that a pass which resolved the chunks
/// `done` may write: the faces of a chunk that was resolved, and the faces
/// towards such a chunk, each if it was not resolved before.
pub open spec fn pass_touch(
    chunks: Map<ChunkPosition, ChunkState<ClientChunk>>,
    done: Seq<ChunkPosition>,
    q: ChunkPosition,
) -> spec_fn(Direction) -> bool {
    |d: Direction|
        (done.contains(q) && !bit_set(
            chunks[q].held().neighbor_direction_visibility_mask,
            d.index() as u8,
        )) || (done.contains(next_to(q, d)) && !bit_set(
            chunks[next_to(q, d)].held().neighbor_direction_visibility_mask,
            d.flipped().index() as u8,
        ))
}

/// Whether `after` holds the chunks of `before`, each with its tag, its
/// level and its blocks.
pub open spec fn same_world_blocks(
    before: Map<ChunkPosition, ChunkState<ClientChunk>>,
    after: Map<ChunkPosition, ChunkState<ClientChunk>>,
) -> bool {
    &&& after.dom() == before.dom()
    &&& forall|q: ChunkPosition| #[trigger]
        before.contains_key(q) ==> after[q].same_tag(before[q]) && (before[q].present() ==> {
            &&& after[q].held().level() == before[q].held().level()
            &&& after[q].held().inner_dirty == before[q].held().inner_dirty
            &&& same_blocks(before[q].held()@, after[q].held()@)
        })
}

/// Resolves the face that `chunk`, the chunk of the position `p` taken out
/// of the map, shares with its neighbour in the direction `dir`, on both
/// sides, and says whether a mask changed.
fn resolve_shared_face(
    chunks: &mut PositionMap<ChunkState<ClientChunk>>,
    chunk: &mut ClientChunk,
    p: ChunkPosition,
    dir: Direction,
) -> (changed: bool)
    requires
        old(chunks).wf(),
        !old(chunks)@.contains_key(p),
        crate::world::settled::inner_position(p),
        old(chunk).wf(),
        old(chunks)@.contains_key(neighbor_of(p, dir).position),
        old(chunks)@[neighbor_of(p, dir).position].present(),
        forall|q: ChunkPosition| #[trigger] old(chunks)@.contains_key(q) ==> old(chunks)@[q].wf(),
    ensures
        final(chunks).wf(),
        final(chunks)@.dom() == old(chunks)@.dom(),
        forall|q: ChunkPosition| #[trigger]
            old(chunks)@.contains_key(q) ==> {
                let now = final(chunks)@[q];
                &&& now.same_tag(old(chunks)@[q])
                &&& now.wf()
                &&& (now.present() ==> now.held().same_frame(&old(chunks)@[q].held())
                    && same_blocks(old(chunks)@[q].held()@, now.held()@))
            },
        forall|q: ChunkPosition| #[trigger]
            old(chunks)@.contains_key(q) && old(chunks)@[q].present() ==> same_but_visible(
                old(chunks)@[q].held()@,
                final(chunks)@[q].held()@,
            ),
        final(chunk).wf(),
        final(chunk).same_frame(old(chunk)),
        same_blocks(old(chunk)@, final(chunk)@),
        same_but_visible(old(chunk)@, final(chunk)@),
        face_step(
            views_with(old(chunks)@, p, *old(chunk)),
            views_with(final(chunks)@, p, *final(chunk)),
            p,
            dir,
        ),
{
    let ghost before = chunks@;
    let ghost cur1 = views_with(before, p, *chunk);
    let position: ChunkPosition = match neighbor(p, dir) {
        Some(n) => n.position,
        None => p,
    };
    let normal: isize = if dir.is_positive() {
        1
    } else {
        -1
    };
    let taken: Option<ChunkState<ClientChunk>> = chunks.remove(position);
    let mut changed: bool = false;
    match taken {
        Some(ChunkState::Stasis { chunk: other }) => {
            let mut other: ClientChunk = other;
            changed =
            calc_block_visible_mask_between_chunks(chunk, &mut other, dir, dir.axis_index(),
                normal);
            chunks.insert(position, ChunkState::Stasis { chunk: other });
        },
        Some(ChunkState::Active { chunk: other }) => {
            let mut other: ClientChunk = other;
            changed =
            calc_block_visible_mask_between_chunks(chunk, &mut other, dir, dir.axis_index(),
                normal);
            chunks.insert(position, ChunkState::Active { chunk: other });
        },
        _ => {},
    }
    proof {
        let cur2 = views_with(chunks@, p, *chunk);
        assert(chunks@.dom() =~= before.dom());
        assert(cur2.dom() =~= cur1.dom()) by {
            assert forall|q: ChunkPosition| cur2.contains_key(q) == cur1.contains_key(q) by {
                if before.contains_key(q) {
                    assert(chunks@.contains_key(q));
                }
            }
        }
        assert forall|q: ChunkPosition| #[trigger] cur1.contains_key(q) implies crate::world::settled::view_ok(
            cur1[q],
        ) by {
            if q != p {
                assert(before.contains_key(q));
            }
        }
        assert(crate::world::settled::next_to(p, dir) == position);
        assert forall|q: ChunkPosition|
            q != p && q != position && cur1.contains_key(q) implies #[trigger] cur2[q]
            == cur1[q] by {
            assert(before.contains_key(q));
        }
    }
    changed
}

impl ClientWorld {
    /// Whether the position has a neighbour in every direction and a chunk
    /// with data stands at each of them.
    pub open spec fn neighbors_present(&self, p: ChunkPosition) -> bool {
        &&& isize::MIN < p.x < isize::MAX
        &&& isize::MIN < p.y < isize::MAX
        &&& isize::MIN < p.z < isize::MAX
        &&& forall|d: Direction| #[trigger]
            self.dimension.present_at(neighbor_of(p, d).position)
    }

    /// Whether the position next to `p` in the direction `d` can be held
    /// and a chunk with data stands there.
    pub open spec fn neighbor_ready(&self, p: ChunkPosition, d: Direction) -> bool {
        let q = step((p.x as int, p.y as int, p.z as int), d);
        &&& isize::MIN <= q.0 <= isize::MAX
        &&& isize::MIN <= q.1 <= isize::MAX
        &&& isize::MIN <= q.2 <= isize::MAX
        &&& self.dimension.present_at(neighbor_of(p, d).position)
    }

    /// Whether the faces of the chunk at `p` can be resolved now: the chunk
    /// holds data and so do all six neighbours.
    pub open spec fn visibility_ready(&self, p: ChunkPosition) -> bool {
        self.dimension.present_at(p) && self.neighbors_present(p)
    }

    /// Whether the faces of the chunk at `p` can be resolved now.
    pub fn is_visibility_ready(&self, p: ChunkPosition) -> (r: bool)
        requires
            self.wf(),
        ensures
            r == self.visibility_ready(p),
    {
        if !self.dimension.is_present(p) {
            return false;
        }
        let mut k: usize = 0;
        while k < 6
            invariant
                k <= 6,
                self.wf(),
                forall|j: nat| j < k ==> #[trigger] self.neighbor_ready(p, Direction::of_index(j)),
            decreases 6 - k,
        {
            let dir: Direction = match Direction::from_index(k) {
                Some(d) => d,
                None => Direction::Left,
            };
            match neighbor(p, dir) {
                Some(n) => {
                    if !self.dimension.is_present(n.position) {
                        return false;
                    }
                    proof {
                        let q = step((p.x as int, p.y as int, p.z as int), dir);
                        assert(n.position.x == q.0 && n.position.y == q.1 && n.position.z == q.2);
                        assert(self.neighbor_ready(p, Direction::of_index(k as nat)));
                    }
                },
                None => {
                    proof {
                        if self.neighbors_present(p) {
                            assert(false);
                        }
                    }
                    return false;
                },
            }
            k = k + 1;
        }
        proof {
            assert(self.neighbor_ready(p, Direction::of_index(0)));
            assert(self.neighbor_ready(p, Direction::of_index(1)));
            assert(self.neighbor_ready(p, Direction::of_index(2)));
            assert(self.neighbor_ready(p, Direction::of_index(3)));
            assert(self.neighbor_ready(p, Direction::of_index(4)));
            assert(self.neighbor_ready(p, Direction::of_index(5)));
            assert forall|d: Direction| #[trigger]
                self.dimension.present_at(neighbor_of(p, d).position) by {
                crate::world::direction::lemma_direction_roundtrip(d);
                assert(self.neighbor_ready(p, Direction::of_index(d.index())));
            }
        }
        true
    }

    /// Resolves, for the chunk at `p`, every face that is not resolved yet
    /// against the neighbour across it, on both sides of the face. The chunk
    /// then no longer waits for visibility. What is resolved for brightness,
    /// and which chunks wait for it, stays as it was.
    pub fn resolve_visibility_at(&mut self, p: ChunkPosition)
        requires
            old(self).wf(),
            old(self).visibility_ready(p),
        ensures
            final(self).wf(),
            same_world_blocks(old(self).dimension.chunks@, final(self).dimension.chunks@),
            forall|q: ChunkPosition|
                q != p && old(self).dimension.present_at(q)
                    ==> (#[trigger] final(self).dimension.chunks@[q]).held().same_frame(&old(self).dimension.chunks@[q].held()),
            final(self).dimension.chunks@[p].held().neighbor_direction_visibility_mask == 63,
            forall|q: ChunkPosition| #[trigger]
                old(self).dimension.present_at(q) ==> same_but_visible(
                    old(self).dimension.chunks@[q].held()@,
                    final(self).dimension.chunks@[q].held()@,
                ),
            final(self).dimension.chunks@[p].held().neighbor_direction_ao_mask == old(self).dimension.chunks@[p].held().neighbor_direction_ao_mask,
            forall|q: ChunkPosition| #[trigger]
                old(self).dimension.present_at(q) ==> masks_kept(
                    views(old(self).dimension.chunks@)[q],
                    views(final(self).dimension.chunks@)[q],
                    visit_touch(
                        p,
                        old(self).dimension.chunks@[p].held().neighbor_direction_visibility_mask,
                        q,
                        6,
                    ),
                ),
            forall|x: ChunkPosition, d: Direction| #[trigger]
                pair_settled(views(old(self).dimension.chunks@), x, d) ==> pair_settled(
                    views(final(self).dimension.chunks@),
                    x,
                    d,
                ),
            forall|d: Direction|
                !bit_set(
                    old(self).dimension.chunks@[p].held().neighbor_direction_visibility_mask,
                    d.index() as u8,
                ) ==> #[trigger] pair_settled(views(final(self).dimension.chunks@), p, d),
            final(self).needs_visibility@ == old(self).needs_visibility@.remove(p),
            final(self).needs_ao == old(self).needs_ao,
            final(self).dimension.blocks_buffer == old(self).dimension.blocks_buffer,
            final(self).dimension.chunk_updated == old(self).dimension.chunk_updated,
            final(self).dimension.chunk_border_changed == old(self).dimension.chunk_border_changed,
            final(self).dimension.chunk_activations == old(self).dimension.chunk_activations,
    {
        let ghost old_map = self.dimension.chunks@;
        self.needs_visibility.remove(p);
        let (mut chunk, active): (ClientChunk, bool) = match self.dimension.chunks.remove(p) {
            Some(ChunkState::Stasis { chunk }) => (chunk, false),
            Some(ChunkState::Active { chunk }) => (chunk, true),
            _ => (ClientChunk::new(0), false),
        };
        let ghost start = chunk;
        proof {
            assert(views_with(self.dimension.chunks@, p, chunk) =~= views(old_map));
        }
        let mut k: usize = 0;
        while k < 6
            invariant
                k <= 6,
                old(self).wf(),
                old(self).visibility_ready(p),
                old_map == old(self).dimension.chunks@,
                self.dimension.chunks.wf(),
                self.dimension.chunk_updated.wf(),
                self.dimension.chunk_border_changed.wf(),
                self.dimension.chunk_activations.wf(),
                self.needs_visibility.wf(),
                self.needs_ao.wf(),
                self.needs_visibility@ == old(self).needs_visibility@.remove(p),
                self.needs_ao == old(self).needs_ao,
                self.dimension.blocks_buffer == old(self).dimension.blocks_buffer,
                self.dimension.chunk_updated == old(self).dimension.chunk_updated,
                self.dimension.chunk_border_changed == old(self).dimension.chunk_border_changed,
                self.dimension.chunk_activations == old(self).dimension.chunk_activations,
                start == old_map[p].held(),
                active == (old_map[p] is Active),
                self.dimension.chunks@.dom() == old_map.dom().remove(p),
                forall|q: ChunkPosition| #[trigger]
                    self.dimension.chunks@.contains_key(q) ==> {
                        let now = self.dimension.chunks@[q];
                        &&& now.same_tag(old_map[q])
                        &&& now.wf()
                        &&& (now.present() ==> now.held().same_frame(&old_map[q].held())
                            && same_blocks(old_map[q].held()@, now.held()@))
                    },
                chunk.wf(),
                chunk.level() == start.level(),
                chunk.inner_dirty == start.inner_dirty,
                same_blocks(start@, chunk@),
                chunk.neighbor_direction_visibility_mask < 64,
                chunk.neighbor_direction_ao_mask < 64,
                forall|j: u8| j < k ==> bit_set(chunk.neighbor_direction_visibility_mask, j),
                forall|j: u8|
                    k <= j < 8 ==> bit_set(chunk.neighbor_direction_visibility_mask, j) == bit_set(
                        start.neighbor_direction_visibility_mask,
                        j,
                    ),
                chunk.neighbor_direction_ao_mask == start.neighbor_direction_ao_mask,
                same_but_visible(start@, chunk@),
                forall|q: ChunkPosition| #[trigger]
                    self.dimension.chunks@.contains_key(q) && old_map[q].present()
                        ==> same_but_visible(
                        old_map[q].held()@,
                        self.dimension.chunks@[q].held()@,
                    ),
                forall|q: ChunkPosition| #[trigger]
                    views(old_map).contains_key(q) ==> masks_kept(
                        views(old_map)[q],
                        views_with(self.dimension.chunks@, p, chunk)[q],
                        visit_touch(p, start.neighbor_direction_visibility_mask, q, k as nat),
                    ),
                forall|x: ChunkPosition, d: Direction| #[trigger]
                    pair_settled(views(old_map), x, d) ==> pair_settled(
                        views_with(self.dimension.chunks@, p, chunk),
                        x,
                        d,
                    ),
                forall|j: u8|
                    j < k && !bit_set(start.neighbor_direction_visibility_mask, j)
                        ==> #[trigger] pair_settled(
                        views_with(self.dimension.chunks@, p, chunk),
                        p,
                        Direction::of_index(j as nat),
                    ),
            decreases 6 - k,
        {
            let dir: Direction = match Direction::from_index(k) {
                Some(d) => d,
                None => Direction::Left,
            };
            let bit: u8 = dir.bit();
            proof {
                lemma_with_bit(chunk.neighbor_direction_visibility_mask, bit, true);
                lemma_six_bits(chunk.neighbor_direction_visibility_mask, bit);
            }
            if !test_bit(chunk.neighbor_direction_visibility_mask, bit) {
                proof {
                    assert(old(self).dimension.present_at(neighbor_of(p, dir).position));
                    assert(old_map.contains_key(neighbor_of(p, dir).position));
                    assert(self.dimension.chunks@.contains_key(neighbor_of(p, dir).position));
                }
                let ghost before = self.dimension.chunks@;
                let ghost cur1 = views_with(before, p, chunk);
                let _ = resolve_shared_face(&mut self.dimension.chunks, &mut chunk, p, dir);
                proof {
                    let cur2 = views_with(self.dimension.chunks@, p, chunk);
                    assert forall|q: ChunkPosition| #[trigger]
                        views(old_map).contains_key(q) implies masks_kept(
                        views(old_map)[q],
                        cur2[q],
                        visit_touch(p, start.neighbor_direction_visibility_mask, q, (k + 1) as nat),
                    ) by {
                        lemma_next_to(p, dir);
                        crate::world::direction::lemma_direction_roundtrip(dir);
                        lemma_step_touches(cur1, cur2, p, dir, q);
                        lemma_masks_kept_chain(
                            views(old_map)[q],
                            cur1[q],
                            cur2[q],
                            visit_touch(p, start.neighbor_direction_visibility_mask, q, k as nat),
                            step_touch(p, dir, q),
                            visit_touch(
                                p,
                                start.neighbor_direction_visibility_mask,
                                q,
                                (k + 1) as nat,
                            ),
                        );
                    }
                    assert forall|x: ChunkPosition, d: Direction| #[trigger]
                        pair_settled(views(old_map), x, d) implies pair_settled(cur2, x, d) by {
                        lemma_step_keeps(cur1, cur2, p, dir, x, d);
                    }
                    assert forall|j: u8|
                        j < k + 1 && !bit_set(start.neighbor_direction_visibility_mask, j)
                            implies #[trigger] pair_settled(
                        cur2,
                        p,
                        Direction::of_index(j as nat),
                    ) by {
                        if j < k {
                            lemma_step_keeps(cur1, cur2, p, dir, p, Direction::of_index(j as nat));
                        } else {
                            lemma_step_settles(cur1, cur2, p, dir);
                        }
                    }
                    assert forall|q: ChunkPosition| #[trigger]
                        self.dimension.chunks@.contains_key(q) implies ({
                        let now = self.dimension.chunks@[q];
                        &&& now.same_tag(old_map[q])
                        &&& now.wf()
                        &&& (now.present() ==> now.held().same_frame(&old_map[q].held())
                            && same_blocks(old_map[q].held()@, now.held()@))
                    }) by {
                        assert(before.contains_key(q));
                    }
                    assert forall|q: ChunkPosition| #[trigger]
                        self.dimension.chunks@.contains_key(q) && old_map[q].present()
                            implies same_but_visible(
                        old_map[q].held()@,
                        self.dimension.chunks@[q].held()@,
                    ) by {
                        assert(before.contains_key(q));
                        assert(before[q].same_tag(old_map[q]));
                        assert(same_but_visible(before[q].held()@,
                            self.dimension.chunks@[q].held()@));
                    }
                }
                chunk.neighbor_direction_visibility_mask =
                write_bit(chunk.neighbor_direction_visibility_mask, bit, true);
            } else {
                proof {
                    let cur = views_with(self.dimension.chunks@, p, chunk);
                    assert forall|q: ChunkPosition| #[trigger]
                        views(old_map).contains_key(q) implies masks_kept(
                        views(old_map)[q],
                        cur[q],
                        visit_touch(p, start.neighbor_direction_visibility_mask, q, (k + 1) as nat),
                    ) by {
                        lemma_masks_kept_chain(
                            views(old_map)[q],
                            cur[q],
                            cur[q],
                            visit_touch(p, start.neighbor_direction_visibility_mask, q, k as nat),
                            |d: Direction| false,
                            visit_touch(
                                p,
                                start.neighbor_direction_visibility_mask,
                                q,
                                (k + 1) as nat,
                            ),
                        );
                    }
                }
            }
            k = k + 1;
        }
        proof {
            lemma_six_bits(chunk.neighbor_direction_visibility_mask, 0);
            assert(state_ok(
                old_map[p],
                old(self).needs_visibility@.contains(p),
                old(self).needs_ao@.contains(p),
            )) by {
                assert(old(self).dimension.chunks@.contains_key(p));
            }
        }
        let ghost map_before_insert = self.dimension.chunks@;
        let ghost chunk_at_end = chunk;
        if active {
            self.dimension.chunks.insert(p, ChunkState::Active { chunk });
        } else {
            self.dimension.chunks.insert(p, ChunkState::Stasis { chunk });
        }
        proof {
            assert(self.dimension.chunks@.dom() =~= old_map.dom());
            assert(views(self.dimension.chunks@) =~= views_with(map_before_insert, p,
                chunk_at_end));
            assert forall|q: ChunkPosition| #[trigger]
                old(self).dimension.present_at(q) implies masks_kept(
                views(old_map)[q],
                views(self.dimension.chunks@)[q],
                visit_touch(p, start.neighbor_direction_visibility_mask, q, 6),
            ) by {
                assert(views(old_map).contains_key(q));
            }
            assert forall|d: Direction|
                !bit_set(
                    old(self).dimension.chunks@[p].held().neighbor_direction_visibility_mask,
                    d.index() as u8,
                ) implies #[trigger] pair_settled(views(self.dimension.chunks@), p, d) by {
                crate::world::direction::lemma_direction_roundtrip(d);
                let j = d.index() as u8;
                assert(Direction::of_index(j as nat) == d);
                assert(pair_settled(
                    views_with(map_before_insert, p, chunk_at_end),
                    p,
                    Direction::of_index(j as nat),
                ));
            }
            assert forall|q: ChunkPosition| #[trigger]
                self.dimension.chunks@.contains_key(q) implies self.dimension.chunks@[q].wf()
                && state_ok(
                self.dimension.chunks@[q],
                self.needs_visibility@.contains(q),
                self.needs_ao@.contains(q),
            ) by {
                assert(old_map.contains_key(q));
            }
            assert forall|q: ChunkPosition| #[trigger]
                old(self).dimension.present_at(q) implies same_but_visible(
                old_map[q].held()@,
                self.dimension.chunks@[q].held()@,
            ) by {
                if q != p {
                    assert(map_before_insert.contains_key(q));
                }
            }
            assert forall|q: ChunkPosition| #[trigger] old_map.contains_key(q) implies self.dimension.chunks@[q].same_tag(
                old_map[q],
            ) && (old_map[q].present() ==> {
                &&& self.dimension.chunks@[q].held().level() == old_map[q].held().level()
                &&& self.dimension.chunks@[q].held().inner_dirty == old_map[q].held().inner_dirty
                &&& same_blocks(old_map[q].held()@, self.dimension.chunks@[q].held()@)
            }) by {
                if q != p {
                    assert(self.dimension.chunks@.contains_key(q));
                }
            }
        }
    }
}

/// Whether the cells `b` are the cells `a` but for their visibility masks.
pub open spec fn same_but_visible(a: Seq<ClientBlockInfo>, b: Seq<ClientBlockInfo>) -> bool {
    a.len() == b.len() && forall|i: int|
        0 <= i < a.len() ==> (#[trigger] b[i]).block == a[i].block && b[i].ambient == a[i].ambient
}

/// Keeping tags, levels and blocks carries over two steps, and keeps a
/// chunk with data where one was.
pub proof fn lemma_same_world_blocks(
    a: Map<ChunkPosition, ChunkState<ClientChunk>>,
    b: Map<ChunkPosition, ChunkState<ClientChunk>>,
    c: Map<ChunkPosition, ChunkState<ClientChunk>>,
)
    requires
        same_world_blocks(a, b),
        same_world_blocks(b, c),
    ensures
        same_world_blocks(a, c),
        forall|q: ChunkPosition|
            (a.contains_key(q) && a[q].present()) <==> (b.contains_key(q) && b[q].present()),
{
    assert forall|q: ChunkPosition| #[trigger] a.contains_key(q) implies c[q].same_tag(a[q]) && (
    a[q].present() ==> {
        &&& c[q].held().level() == a[q].held().level()
        &&& c[q].held().inner_dirty == a[q].held().inner_dirty
        &&& same_blocks(a[q].held()@, c[q].held()@)
    }) by {
        assert(b.contains_key(q));
    }
    assert forall|q: ChunkPosition|
        (a.contains_key(q) && a[q].present()) <==> (b.contains_key(q) && b[q].present()) by {
        if a.contains_key(q) {
            assert(b[q].same_tag(a[q]));
        }
        if b.contains_key(q) {
            assert(a.contains_key(q));
        }
    }
}

impl ClientWorld {
    /// One tick's share of resolving shared faces. The chunks that wait for
    /// visibility are taken in the order in which they wait; each one that
    /// holds data and has all six neighbours is resolved with
    /// `resolve_visibility_at`, until `MAX_PROCESS` chunks have been. The
    /// result lists the chunks resolved.
    pub fn calc_visibility(&mut self) -> (done: Vec<ChunkPosition>)
        requires
            old(self).wf(),
        ensures
            final(self).wf(),
            visibility_passed(old(self), final(self), done@),
    {
        let candidates: Vec<ChunkPosition> = self.needs_visibility.to_vec();
        let mut done: Vec<ChunkPosition> = Vec::new();
        let ghost old_map = self.dimension.chunks@;
        let mut k: usize = 0;
        while k < candidates.len()
            invariant
                k <= candidates@.len(),
                candidates@.no_duplicates(),
                forall|p: ChunkPosition|
                    candidates@.contains(p) <==> old(self).needs_visibility@.contains(p),
                old(self).wf(),
                old_map == old(self).dimension.chunks@,
                self.wf(),
                same_world_blocks(old_map, self.dimension.chunks@),
                done@.len() <= MAX_PROCESS,
                done@.no_duplicates(),
                forall|p: ChunkPosition| #[trigger]
                    done@.contains(p) ==> candidates@.take(k as int).contains(p)
                        && old(self).visibility_ready(p)
                        && self.dimension.chunks@[p].held().neighbor_direction_visibility_mask
                        == 63,
                forall|p: ChunkPosition| #[trigger]
                    self.needs_visibility@.contains(p) <==> old(self).needs_visibility@.contains(p)
                        && !done@.contains(p),
                self.needs_ao == old(self).needs_ao,
                forall|q: ChunkPosition| #[trigger]
                    old(self).dimension.present_at(q) ==> self.dimension.chunks@[q].held().neighbor_direction_ao_mask
                        == old_map[q].held().neighbor_direction_ao_mask,
                forall|p: ChunkPosition|
                    candidates@.take(k as int).contains(p) && old(self).visibility_ready(p) && !(
                    #[trigger] done@.contains(p)) ==> done@.len() == MAX_PROCESS,
                forall|q: ChunkPosition|
                    old(self).dimension.present_at(q) && !done@.contains(q)
                        ==> (#[trigger] self.dimension.chunks@[q]).held().same_frame(
                        &old(self).dimension.chunks@[q].held(),
                    ),
                forall|q: ChunkPosition| #[trigger]
                    old(self).dimension.present_at(q) ==> masks_kept(
                        views(old_map)[q],
                        views(self.dimension.chunks@)[q],
                        pass_touch(old_map, done@, q),
                    ),
                forall|x: ChunkPosition, d: Direction| #[trigger]
                    pair_settled(views(old_map), x, d) ==> pair_settled(
                        views(self.dimension.chunks@),
                        x,
                        d,
                    ),
                forall|p: ChunkPosition, d: Direction|
                    done@.contains(p) && !bit_set(
                        old_map[p].held().neighbor_direction_visibility_mask,
                        d.index() as u8,
                    ) ==> #[trigger] pair_settled(views(self.dimension.chunks@), p, d),
                forall|q: ChunkPosition| #[trigger]
                    old(self).dimension.present_at(q) ==> same_but_visible(
                        old_map[q].held()@,
                        self.dimension.chunks@[q].held()@,
                    ),
                self.dimension.blocks_buffer == old(self).dimension.blocks_buffer,
                self.dimension.chunk_updated == old(self).dimension.chunk_updated,
                self.dimension.chunk_border_changed == old(self).dimension.chunk_border_changed,
                self.dimension.chunk_activations == old(self).dimension.chunk_activations,
            decreases candidates@.len() - k,
        {
            let position: ChunkPosition = candidates[k];
            let ghost before = *self;
            let ghost done_before = done@;
            proof {
                lemma_same_world_blocks(old_map, before.dimension.chunks@,
                    before.dimension.chunks@);
                assert(candidates@.contains(position));
                assert(!candidates@.take(k as int).contains(position)) by {
                    if candidates@.take(k as int).contains(position) {
                        let j = candidates@.take(k as int).index_of(position);
                        assert(candidates@[j] == position);
                    }
                }
                assert forall|p: ChunkPosition|
                    candidates@.take(k + 1).contains(p) <==> candidates@.take(k as int).contains(p)
                        || p == position by {
                    let t0 = candidates@.take(k as int);
                    let t1 = candidates@.take(k + 1);
                    assert(t1 =~= t0.push(position));
                    if t0.contains(p) {
                        let j = t0.index_of(p);
                        assert(t1[j] == p);
                    }
                    if t1.contains(p) {
                        let j = t1.index_of(p);
                        if j < k {
                            assert(t0[j] == p);
                        }
                    }
                    assert(t1[k as int] == position);
                }
                assert(before.visibility_ready(position)
                    == old(self).visibility_ready(position)) by {
                    assert forall|d: Direction|
                        before.dimension.present_at(neighbor_of(position,
                            d).position)
                            == old(self).dimension.present_at(#[trigger] neighbor_of(position,
                            d).position) by {}
                    if before.visibility_ready(position) {
                        assert forall|d: Direction| #[trigger]
                            old(self).dimension.present_at(
                                neighbor_of(position, d).position,
                            ) by {
                            assert(before.dimension.present_at(neighbor_of(position, d).position));
                        }
                    }
                    if old(self).visibility_ready(position) {
                        assert forall|d: Direction| #[trigger]
                            before.dimension.present_at(neighbor_of(position, d).position) by {
                            assert(old(self).dimension.present_at(
                                neighbor_of(position, d).position,
                            ));
                        }
                    }
                }
            }
            if done.len() < MAX_PROCESS && self.is_visibility_ready(position) {
                self.resolve_visibility_at(position);
                done.push(position);
                proof {
                    lemma_same_world_blocks(
                        old_map,
                        before.dimension.chunks@,
                        self.dimension.chunks@,
                    );
                    assert(done@ == done_before.push(position));
                    assert(!done_before.contains(position));
                    assert forall|p: ChunkPosition|
                        done@.contains(p) <==> done_before.contains(p) || p == position by {
                        if done_before.contains(p) {
                            let j = done_before.index_of(p);
                            assert(done@[j] == p);
                        }
                        if done@.contains(p) {
                            let j = done@.index_of(p);
                            if j < done_before.len() {
                                assert(done_before[j] == p);
                            }
                        }
                        assert(done@[done_before.len() as int] == position);
                    }
                    assert(done@.no_duplicates()) by {
                        assert forall|a: int, b: int|
                            0 <= a < done@.len() && 0 <= b < done@.len() && a != b implies done@[a]
                            != done@[b] by {
                            if a < done_before.len() && b < done_before.len() {
                            } else if a < done_before.len() {
                                assert(done_before.contains(done_before[a]));
                            } else {
                                assert(done_before.contains(done_before[b]));
                            }
                        }
                    }
                    assert forall|p: ChunkPosition| #[trigger]
                        done@.contains(p) implies candidates@.take(k + 1).contains(p)
                            && old(self).visibility_ready(p)
                        && self.dimension.chunks@[p].held().neighbor_direction_visibility_mask
                        == 63 by {
                        if p != position {
                            assert(done_before.contains(p));
                            assert(before.dimension.present_at(p));
                        }
                    }
                    assert forall|q: ChunkPosition| #[trigger]
                        old(self).dimension.present_at(q) implies self.dimension.chunks@[q].held().neighbor_direction_ao_mask
                        == old_map[q].held().neighbor_direction_ao_mask by {
                        assert(before.dimension.present_at(q));
                    }
                    assert forall|q: ChunkPosition| #[trigger]
                        old(self).dimension.present_at(q) implies same_but_visible(
                        old_map[q].held()@,
                        self.dimension.chunks@[q].held()@,
                    ) by {
                        assert(before.dimension.present_at(q));
                        assert(same_but_visible(
                            old_map[q].held()@,
                            before.dimension.chunks@[q].held()@,
                        ));
                        assert(same_but_visible(
                            before.dimension.chunks@[q].held()@,
                            self.dimension.chunks@[q].held()@,
                        ));
                    }
                    assert forall|q: ChunkPosition| #[trigger]
                        old(self).dimension.present_at(q) implies masks_kept(
                        views(old_map)[q],
                        views(self.dimension.chunks@)[q],
                        pass_touch(old_map, done@, q),
                    ) by {
                        assert(before.dimension.present_at(q));
                        assert(old(self).dimension.present_at(position));
                        assert(before.dimension.chunks@[position].held().same_frame(
                            &old_map[position].held(),
                        ));
                        lemma_masks_kept_chain(
                            views(old_map)[q],
                            views(before.dimension.chunks@)[q],
                            views(self.dimension.chunks@)[q],
                            pass_touch(old_map, done_before, q),
                            visit_touch(
                                position,
                                before.dimension.chunks@[position].held().neighbor_direction_visibility_mask,
                                q,
                                6,
                            ),
                            pass_touch(old_map, done@, q),
                        );
                    }
                    assert forall|x: ChunkPosition, d: Direction| #[trigger]
                        pair_settled(views(old_map), x, d) implies pair_settled(
                        views(self.dimension.chunks@),
                        x,
                        d,
                    ) by {
                        assert(pair_settled(views(before.dimension.chunks@), x, d));
                    }
                    assert forall|p: ChunkPosition, d: Direction|
                        done@.contains(p) && !bit_set(
                            old_map[p].held().neighbor_direction_visibility_mask,
                            d.index() as u8,
                        ) implies #[trigger] pair_settled(views(self.dimension.chunks@), p, d) by {
                        if p != position {
                            assert(done_before.contains(p));
                            assert(pair_settled(views(before.dimension.chunks@), p, d));
                        } else {
                            assert(old(self).dimension.present_at(position));
                            assert(before.dimension.chunks@[position].held().same_frame(
                                &old_map[position].held(),
                            ));
                        }
                    }
                    assert forall|p: ChunkPosition|
                        candidates@.take(k + 1).contains(p) && old(self).visibility_ready(p) && !(
                        #[trigger] done@.contains(p)) implies done@.len() == MAX_PROCESS by {
                        assert(!done_before.contains(p));
                    }
                    assert forall|q: ChunkPosition|
                        old(self).dimension.present_at(q) && !done@.contains(q)
                            implies (#[trigger] self.dimension.chunks@[q]).held().same_frame(
                        &old(self).dimension.chunks@[q].held(),
                    ) by {
                        assert(before.dimension.present_at(q));
                        assert(!done_before.contains(q));
                        assert(before.dimension.chunks@[q].held().same_frame(
                            &old(self).dimension.chunks@[q].held(),
                        ));
                    }
                }
            }
            k = k + 1;
        }
        proof {
            assert(candidates@.take(candidates@.len() as int) =~= candidates@);
        }
        done
    }
}

/// The position of the `i`-th chunk of the block of three by three by
/// three chunks around `p`, x running fastest.
pub open spec fn hood_position(p: ChunkPosition, i: int) -> ChunkPosition {
    ChunkPosition {
        x: (p.x - 1 + i % 3) as isize,
        y: (p.y - 1 + (i / 3) % 3) as isize,
        z: (p.z - 1 + i / 9) as isize,
    }
}

/// The chunks of the block around `p`, in the order of `hood_position`.
pub open spec fn hood_of<'a>(chunks: Map<ChunkPosition, ChunkState<ClientChunk>>,
    p: ChunkPosition) -> Seq<
    &'a ClientChunk,
> {
    Seq::new(27, |i: int| &chunks[hood_position(p, i)].held())
}

/// Whether a border pass reaches the face `k` of the cell: the face is not
/// resolved for brightness yet and the cell lies on it.
pub open spec fn border_reaches(ao_mask: u8, n: nat, cell: (int, int, int), k: nat) -> bool {
    !bit_set(ao_mask, k as u8) && on_face(n, cell, Direction::of_index(k))
}

/// Whether a border pass over one of the faces `lo` to 5 reaches the cell.
pub open spec fn border_reached_from(ao_mask: u8, n: nat, cell: (int, int, int), lo: nat) -> bool
    decreases 6 - lo,
{
    if lo >= 6 {
        false
    } else {
        border_reaches(ao_mask, n, cell, lo) || border_reached_from(ao_mask, n, cell, lo + 1)
    }
}

/// Whether the border passes of a chunk with the brightness mask `ao_mask`
/// write the cell: a pass reaches it and at least one of its faces shows.
pub open spec fn border_touched(ao_mask: u8, n: nat, cell: (int, int, int),
    visible_mask: u8) -> bool {
    visible_mask & 63 != 0 && border_reached_from(ao_mask, n, cell, 0)
}

/// Whether `after` is the chunk at `p` of `chunks` with its border
/// brightness taken: every cell that the border passes write has, on all
/// six faces, the brightness that the block of chunks around `p` gives it;
/// every other brightness, every visibility mask and the chunk's own
/// visibility mask are as they were; and all six faces count as resolved
/// for brightness.
pub open spec fn border_resolved(
    chunks: Map<ChunkPosition, ChunkState<ClientChunk>>,
    p: ChunkPosition,
    after: ClientChunk,
) -> bool {
    let before = chunks[p].held();
    let n = axis_len(before.level());
    let hood = hood_of(chunks, p);
    &&& after.neighbor_direction_ao_mask == 63
    &&& after.neighbor_direction_visibility_mask == before.neighbor_direction_visibility_mask
    &&& after@.len() == before@.len()
    &&& forall|i: int|
        0 <= i < before@.len() ==> {
            &&& (#[trigger] after@[i]).visible_mask == before@[i].visible_mask
            &&& forall|e: Direction|
                after@[i].ambient[#[trigger] e.index() as int] == (if border_touched(
                    before.neighbor_direction_ao_mask,
                    n,
                    index_cell(n, i),
                    before@[i].visible_mask,
                ) {
                    ambient_value(
                        hood_samples(hood, hood_min(p), world_cell(p, index_cell(n, i)), e),
                    )
                } else {
                    before@[i].ambient[e.index() as int]
                })
        }
}

/// Taking the border brightness gives the same chunk in every world that
/// holds the same chunk at `p` and the same blocks around it.
pub proof fn lemma_border_resolved_blocks(
    a: Map<ChunkPosition, ChunkState<ClientChunk>>,
    b: Map<ChunkPosition, ChunkState<ClientChunk>>,
    p: ChunkPosition,
    after: ClientChunk,
)
    requires
        same_world_blocks(a, b),
        hood_reach(p),
        forall|i: int|
            0 <= i < 27 ==> a.contains_key(#[trigger] hood_position(p, i)) && a[hood_position(
                p,
                i,
            )].present() && a[hood_position(p, i)].held().wf() && b[hood_position(
                p,
                i,
            )].held().wf(),
        a[p] == b[p],
        border_resolved(b, p, after),
    ensures
        border_resolved(a, p, after),
{
    let before = a[p].held();
    let n = axis_len(before.level());
    assert(hood_position(p, 13) == p);
    assert(a.contains_key(hood_position(p, 13)));
    lemma_lod_table(before.level());
    let ha = hood_of(a, p);
    let hb = hood_of(b, p);
    assert(crate::world::ambient::same_hood_blocks(ha, hb)) by {
        assert forall|k: int| 0 <= k < 27 implies (#[trigger] ha[k]).level() == hb[k].level()
            && ha[k]@.len() == hb[k]@.len() && forall|i: int|
            0 <= i < ha[k]@.len() ==> (#[trigger] ha[k]@[i]).block == hb[k]@[i].block by {
            assert(a.contains_key(hood_position(p, k)));
        }
    }
    assert(hood_wf(ha)) by {
        assert forall|k: int| 0 <= k < 27 implies (#[trigger] ha[k]).wf() by {
            assert(a.contains_key(hood_position(p, k)));
        }
    }
    assert forall|i: int| 0 <= i < before@.len() implies forall|e: Direction|
        (#[trigger] after@[i]).ambient[#[trigger] e.index() as int] == (if border_touched(
            before.neighbor_direction_ao_mask,
            n,
            index_cell(n, i),
            before@[i].visible_mask,
        ) {
            ambient_value(hood_samples(ha, hood_min(p), world_cell(p, index_cell(n, i)), e))
        } else {
            before@[i].ambient[e.index() as int]
        }) by {
        lemma_index_cell(n, i);
        assert forall|e: Direction|
            after@[i].ambient[#[trigger] e.index() as int] == (if border_touched(
                before.neighbor_direction_ao_mask,
                n,
                index_cell(n, i),
                before@[i].visible_mask,
            ) {
                ambient_value(hood_samples(ha, hood_min(p), world_cell(p, index_cell(n, i)), e))
            } else {
                before@[i].ambient[e.index() as int]
            }) by {
            crate::world::ambient::lemma_hood_samples_blocks(ha, hb, p, index_cell(n, i), e);
        }
    }
}

impl ClientWorld {
    /// Whether the border brightness of the chunk at `p` can be taken now:
    /// a chunk with data stands at `p` and all around it, and their cells
    /// have world coordinates that the machine can hold.
    pub open spec fn border_ready(&self, p: ChunkPosition) -> bool {
        &&& hood_reach(p)
        &&& forall|i: int| 0 <= i < 27 ==> self.dimension.present_at(#[trigger] hood_position(p, i))
    }

    /// Whether the border brightness of the chunk at `p` is to be taken
    /// now: the chunk is in stasis, no longer waits for visibility and
    /// stands in a complete block of chunks.
    pub open spec fn border_due(&self, p: ChunkPosition) -> bool {
        &&& self.border_ready(p)
        &&& self.dimension.chunks@[p] is Stasis
        &&& !self.needs_visibility@.contains(p)
    }

    /// The block of chunks around `p`, if it is complete.
    fn gather_hood(&self, p: ChunkPosition) -> (r: Option<Vec<&ClientChunk>>)
        requires
            self.wf(),
        ensures
            match r {
                Some(refs) => self.border_ready(p) && hood_wf(refs@) && refs@ == hood_of(
                    self.dimension.chunks@,
                    p,
                ),
                None => !self.border_ready(p),
            },
    {
        let lo: isize = isize::MIN / 32 + 2;
        let hi: isize = isize::MAX / 32 - 2;
        if p.x < lo || p.x > hi || p.y < lo || p.y > hi || p.z < lo || p.z > hi {
            return None;
        }
        let mut refs: Vec<&ClientChunk> = Vec::new();
        let mut i: usize = 0;
        while i < 27
            invariant
                i <= 27,
                self.wf(),
                hood_reach(p),
                refs@.len() == i,
                forall|k: int|
                    0 <= k < i ==> self.dimension.present_at(#[trigger] hood_position(p, k))
                        && *refs@[k] == self.dimension.chunks@[hood_position(p, k)].held()
                        && refs@[k].wf(),
            decreases 27 - i,
        {
            let dx: isize = (i % 3) as isize;
            let dy: isize = ((i / 3) % 3) as isize;
            let dz: isize = (i / 9) as isize;
            let q: ChunkPosition = ChunkPosition {
                x: p.x - 1 + dx,
                y: p.y - 1 + dy,
                z: p.z - 1 + dz,
            };
            assert(q == hood_position(p, i as int));
            let ghost before = refs@;
            match self.dimension.chunk_at(q) {
                Some(chunk) => {
                    refs.push(chunk);
                    proof {
                        assert forall|k: int| 0 <= k < i + 1 implies self.dimension.present_at(
                            #[trigger] hood_position(p, k),
                        ) && *refs@[k] == self.dimension.chunks@[hood_position(p, k)].held()
                            && refs@[k].wf() by {
                            if k < i {
                                assert(refs@[k] == before[k]);
                            } else {
                                assert(refs@[k] == chunk);
                            }
                        }
                    }
                },
                None => {
                    return None;
                },
            }
            i = i + 1;
        }
        proof {
            assert(refs@ =~= hood_of(self.dimension.chunks@, p));
        }
        Some(refs)
    }

    /// Whether the border brightness of the chunk at `p` can be taken now.
    pub fn is_border_ready(&self, p: ChunkPosition) -> (r: bool)
        requires
            self.wf(),
        ensures
            r == self.border_ready(p),
    {
        self.gather_hood(p).is_some()
    }
}

/// The border passes that the chunk in the middle of the block still
/// needs: for each face that is not resolved for brightness, what the pass
/// over it finds.
fn border_passes(refs: &[&ClientChunk], p: ChunkPosition) -> (r: Vec<Option<PolyAmbientValues>>)
    requires
        hood_wf(refs@),
        hood_reach(p),
    ensures
        r@.len() == 6,
        forall|k: int|
            0 <= k < 6 ==> match #[trigger] r@[k] {
                Some(poly) => !bit_set(refs@[13].neighbor_direction_ao_mask, k as u8) && poly@.len()
                    == refs@[13]@.len() && forall|i: int|
                    0 <= i < poly@.len() ==> border_values(
                        refs@,
                        p,
                        Direction::of_index(k as nat),
                        i,
                        #[trigger] poly@[i],
                    ),
                None => bit_set(refs@[13].neighbor_direction_ao_mask, k as u8),
            },
{
    let target: &ClientChunk = refs[13];
    let mut out: Vec<Option<PolyAmbientValues>> = Vec::new();
    let mut k: usize = 0;
    while k < 6
        invariant
            k <= 6,
            hood_wf(refs@),
            hood_reach(p),
            target == refs@[13],
            out@.len() == k,
            forall|j: int|
                0 <= j < k ==> match #[trigger] out@[j] {
                    Some(poly) => !bit_set(target.neighbor_direction_ao_mask, j as u8)
                        && poly@.len()
                        == target@.len() && forall|i: int|
                        0 <= i < poly@.len() ==> border_values(
                            refs@,
                            p,
                            Direction::of_index(j as nat),
                            i,
                            #[trigger] poly@[i],
                        ),
                    None => bit_set(target.neighbor_direction_ao_mask, j as u8),
                },
        decreases 6 - k,
    {
        let dir: Direction = match Direction::from_index(k) {
            Some(d) => d,
            None => Direction::Left,
        };
        if test_bit(target.neighbor_direction_ao_mask, dir.bit()) {
            out.push(None);
        } else {
            let normal: isize = if dir.is_positive() {
                1
            } else {
                -1
            };
            let poly: PolyAmbientValues = calc_ambient_between_chunk_neighbors(
                refs,
                p,
                dir,
                dir.axis_index(),
                normal,
            );
            out.push(Some(poly));
        }
        k = k + 1;
    }
    out
}

impl ClientWorld {
    /// Takes the border brightness of the chunk at `p`: for every face
    /// that is not resolved for brightness, the cells on it that show a face
    /// get the brightness of all six faces anew from the block of chunks
    /// around; then all six faces count as resolved and the chunk no longer
    /// waits for brightness.
    pub fn resolve_border_ao_at(&mut self, p: ChunkPosition)
        requires
            old(self).wf(),
            old(self).border_ready(p),
            old(self).dimension.chunks@[p] is Stasis,
            !old(self).needs_visibility@.contains(p),
        ensures
            final(self).wf(),
            same_world_blocks(old(self).dimension.chunks@, final(self).dimension.chunks@),
            forall|q: ChunkPosition|
                q != p && old(self).dimension.chunks@.contains_key(q)
                    ==> #[trigger] final(self).dimension.chunks@[q]
                    == old(self).dimension.chunks@[q],
            border_resolved(
                old(self).dimension.chunks@,
                p,
                final(self).dimension.chunks@[p].held(),
            ),
            final(self).needs_visibility == old(self).needs_visibility,
            final(self).needs_ao@ == old(self).needs_ao@.remove(p),
            final(self).dimension.blocks_buffer == old(self).dimension.blocks_buffer,
            final(self).dimension.chunk_updated == old(self).dimension.chunk_updated,
            final(self).dimension.chunk_border_changed == old(self).dimension.chunk_border_changed,
            final(self).dimension.chunk_activations == old(self).dimension.chunk_activations,
    {
        let ghost old_map = self.dimension.chunks@;
        let ghost hood = hood_of(old_map, p);
        proof {
            assert(hood_position(p, 13) == p);
            assert(self.dimension.present_at(hood_position(p, 13)));
        }
        let mut passes: Vec<Option<PolyAmbientValues>> = match self.gather_hood(p) {
            Some(refs) => border_passes(refs.as_slice(), p),
            None => Vec::new(),
        };
        let (mut chunk, active): (ClientChunk, bool) = match self.dimension.chunks.remove(p) {
            Some(ChunkState::Stasis { chunk }) => (chunk, false),
            Some(ChunkState::Active { chunk }) => (chunk, true),
            _ => (ClientChunk::new(0), false),
        };
        let ghost start = chunk;
        let ghost n = axis_len(start.level());
        let ghost ao = start.neighbor_direction_ao_mask;
        proof {
            assert(start == hood[13]);
            lemma_lod_table(start.level());
        }
        let mut k: usize = 6;
        while k > 0
            invariant
                k <= 6,
                passes@.len() == k,
                start.wf(),
                n == axis_len(start.level()),
                ao == start.neighbor_direction_ao_mask,
                start == hood[13],
                forall|j: int|
                    0 <= j < k ==> match #[trigger] passes@[j] {
                        Some(poly) => !bit_set(ao, j as u8) && poly@.len() == start@.len()
                            && forall|i: int|
                            0 <= i < poly@.len() ==> border_values(
                                hood,
                                p,
                                Direction::of_index(j as nat),
                                i,
                                #[trigger] poly@[i],
                            ),
                        None => bit_set(ao, j as u8),
                    },
                chunk.same_frame(&start),
                chunk@.len() == start@.len(),
                forall|i: int|
                    0 <= i < start@.len() ==> {
                        &&& (#[trigger] chunk@[i]).visible_mask == start@[i].visible_mask
                        &&& chunk@[i].block == start@[i].block
                        &&& forall|e: Direction|
                            chunk@[i].ambient[#[trigger] e.index() as int]
                                == (if start@[i].visible_mask
                                & 63 != 0
                                    && border_reached_from(ao, n, index_cell(n, i), k as nat) {
                                ambient_value(
                                    hood_samples(
                                        hood,
                                        hood_min(p),
                                        world_cell(p, index_cell(n, i)),
                                        e,
                                    ),
                                )
                            } else {
                                start@[i].ambient[e.index() as int]
                            })
                    },
            decreases k,
        {
            let ghost before = chunk@;
            let ghost j = (k - 1) as int;
            let ghost top = passes@[j];
            let pass: Option<PolyAmbientValues> = match passes.pop() {
                Some(pass) => pass,
                None => None,
            };
            assert(pass == top);
            match pass {
                Some(poly) => {
                    let ghost values = poly@;
                    set_ambient_between_chunk_neighbors(poly, &mut chunk);
                    proof {
                        assert forall|i: int| 0 <= i < start@.len() implies {
                            &&& (#[trigger] chunk@[i]).visible_mask == start@[i].visible_mask
                            &&& chunk@[i].block == start@[i].block
                            &&& forall|e: Direction|
                                chunk@[i].ambient[#[trigger] e.index() as int]
                                    == (if start@[i].visible_mask
                                    & 63 != 0
                                        && border_reached_from(ao, n, index_cell(n, i), j as nat) {
                                    ambient_value(
                                        hood_samples(
                                            hood,
                                            hood_min(p),
                                            world_cell(p, index_cell(n, i)),
                                            e,
                                        ),
                                    )
                                } else {
                                    start@[i].ambient[e.index() as int]
                                })
                        } by {
                            assert(with_ambient(before[i], values[i], chunk@[i]));
                            assert(border_values(hood, p, Direction::of_index(j as nat), i,
                                values[i]));
                            reveal(border_values);
                            assert(before[i].visible_mask == start@[i].visible_mask);
                            assert forall|e: Direction|
                                chunk@[i].ambient[#[trigger] e.index() as int]
                                    == (if start@[i].visible_mask
                                    & 63 != 0
                                        && border_reached_from(ao, n, index_cell(n, i), j as nat) {
                                    ambient_value(
                                        hood_samples(
                                            hood,
                                            hood_min(p),
                                            world_cell(p, index_cell(n, i)),
                                            e,
                                        ),
                                    )
                                } else {
                                    start@[i].ambient[e.index() as int]
                                }) by {
                                assert(0 <= e.index() < 6);
                                let a = chunk@[i].ambient[e.index() as int];
                                assert(before[i].ambient[e.index() as int]
                                    == (if start@[i].visible_mask
                                    & 63 != 0
                                        && border_reached_from(ao, n, index_cell(n, i), k as nat) {
                                    ambient_value(
                                        hood_samples(
                                            hood,
                                            hood_min(p),
                                            world_cell(p, index_cell(n, i)),
                                            e,
                                        ),
                                    )
                                } else {
                                    start@[i].ambient[e.index() as int]
                                }));
                            }
                        }
                    }
                },
                None => {},
            }
            k = k - 1;
        }
        chunk.neighbor_direction_ao_mask = 63;
        self.needs_ao.remove(p);
        if active {
            self.dimension.chunks.insert(p, ChunkState::Active { chunk });
        } else {
            self.dimension.chunks.insert(p, ChunkState::Stasis { chunk });
        }
        proof {
            assert(self.dimension.chunks@.dom() =~= old_map.dom());
            assert(state_ok(
                old_map[p],
                old(self).needs_visibility@.contains(p),
                old(self).needs_ao@.contains(p),
            )) by {
                assert(old(self).dimension.chunks@.contains_key(p));
            }
            assert forall|q: ChunkPosition| #[trigger]
                self.dimension.chunks@.contains_key(q) implies self.dimension.chunks@[q].wf()
                && state_ok(
                self.dimension.chunks@[q],
                self.needs_visibility@.contains(q),
                self.needs_ao@.contains(q),
            ) by {
                assert(old_map.contains_key(q));
            }
        }
    }
}

impl ClientWorld {
    /// One tick's share of taking border brightness. The chunks that wait
    /// for brightness are taken in the order in which they wait; each one
    /// that no longer waits for visibility and stands in a complete block of
    /// chunks is resolved with `resolve_border_ao_at`, until `MAX_PROCESS`
    /// chunks have been. The result lists the chunks resolved.
    pub fn calc_border_ao(&mut self) -> (done: Vec<ChunkPosition>)
        requires
            old(self).wf(),
        ensures
            final(self).wf(),
            border_passed(old(self), final(self), done@),
    {
        let candidates: Vec<ChunkPosition> = self.needs_ao.to_vec();
        let mut done: Vec<ChunkPosition> = Vec::new();
        let ghost old_map = self.dimension.chunks@;
        let mut k: usize = 0;
        while k < candidates.len()
            invariant
                k <= candidates@.len(),
                candidates@.no_duplicates(),
                forall|p: ChunkPosition| candidates@.contains(p)
                    <==> old(self).needs_ao@.contains(p),
                old(self).wf(),
                old_map == old(self).dimension.chunks@,
                self.wf(),
                same_world_blocks(old_map, self.dimension.chunks@),
                done@.len() <= MAX_PROCESS,
                done@.no_duplicates(),
                forall|p: ChunkPosition| #[trigger]
                    done@.contains(p) ==> candidates@.take(k as int).contains(p) && old(self).border_due(p) && border_resolved(
                        old_map,
                        p,
                        self.dimension.chunks@[p].held(),
                    ),
                forall|p: ChunkPosition| #[trigger]
                    self.needs_ao@.contains(p) <==> old(self).needs_ao@.contains(p)
                        && !done@.contains(p),
                forall|p: ChunkPosition|
                    candidates@.take(k as int).contains(p) && old(self).border_due(p) && !(
                    #[trigger] done@.contains(p)) ==> done@.len() == MAX_PROCESS,
                forall|q: ChunkPosition|
                    old_map.contains_key(q) && !done@.contains(q)
                        ==> #[trigger] self.dimension.chunks@[q] == old_map[q],
                self.needs_visibility == old(self).needs_visibility,
                self.dimension.blocks_buffer == old(self).dimension.blocks_buffer,
                self.dimension.chunk_updated == old(self).dimension.chunk_updated,
                self.dimension.chunk_border_changed == old(self).dimension.chunk_border_changed,
                self.dimension.chunk_activations == old(self).dimension.chunk_activations,
            decreases candidates@.len() - k,
        {
            let position: ChunkPosition = candidates[k];
            let ghost before = *self;
            let ghost done_before = done@;
            proof {
                lemma_same_world_blocks(old_map, before.dimension.chunks@,
                    before.dimension.chunks@);
                assert(candidates@.contains(position));
                assert(!candidates@.take(k as int).contains(position)) by {
                    if candidates@.take(k as int).contains(position) {
                        let j = candidates@.take(k as int).index_of(position);
                        assert(candidates@[j] == position);
                    }
                }
                assert forall|p: ChunkPosition|
                    candidates@.take(k + 1).contains(p) <==> candidates@.take(k as int).contains(p)
                        || p == position by {
                    let t0 = candidates@.take(k as int);
                    let t1 = candidates@.take(k + 1);
                    assert(t1 =~= t0.push(position));
                    if t0.contains(p) {
                        let j = t0.index_of(p);
                        assert(t1[j] == p);
                    }
                    if t1.contains(p) {
                        let j = t1.index_of(p);
                        if j < k {
                            assert(t0[j] == p);
                        }
                    }
                    assert(t1[k as int] == position);
                }
                assert(before.border_ready(position) == old(self).border_ready(position)) by {
                    if before.border_ready(position) {
                        assert forall|i: int| 0 <= i < 27 implies old(self).dimension.present_at(
                            #[trigger] hood_position(position, i),
                        ) by {
                            assert(before.dimension.present_at(hood_position(position, i)));
                        }
                    }
                    if old(self).border_ready(position) {
                        assert forall|i: int| 0 <= i < 27 implies before.dimension.present_at(
                            #[trigger] hood_position(position, i),
                        ) by {
                            assert(old(self).dimension.present_at(hood_position(position, i)));
                        }
                    }
                }
            }
            let in_stasis: bool = match self.dimension.chunks.get(position) {
                Some(ChunkState::Stasis { .. }) => true,
                _ => false,
            };
            proof {
                if old_map.contains_key(position) {
                    assert(before.dimension.chunks@[position].same_tag(old_map[position]));
                }
                assert(before.border_due(position) == old(self).border_due(position));
            }
            if done.len() < MAX_PROCESS && in_stasis && !self.needs_visibility.contains(position)
                && self.is_border_ready(position) {
                self.resolve_border_ao_at(position);
                done.push(position);
                proof {
                    lemma_same_world_blocks(
                        old_map,
                        before.dimension.chunks@,
                        self.dimension.chunks@,
                    );
                    assert(done@ == done_before.push(position));
                    assert(!done_before.contains(position));
                    assert forall|p: ChunkPosition|
                        done@.contains(p) <==> done_before.contains(p) || p == position by {
                        if done_before.contains(p) {
                            let j = done_before.index_of(p);
                            assert(done@[j] == p);
                        }
                        if done@.contains(p) {
                            let j = done@.index_of(p);
                            if j < done_before.len() {
                                assert(done_before[j] == p);
                            }
                        }
                        assert(done@[done_before.len() as int] == position);
                    }
                    assert(done@.no_duplicates()) by {
                        assert forall|a: int, b: int|
                            0 <= a < done@.len() && 0 <= b < done@.len() && a != b implies done@[a]
                            != done@[b] by {
                            if a < done_before.len() && b < done_before.len() {
                            } else if a < done_before.len() {
                                assert(done_before.contains(done_before[a]));
                            } else {
                                assert(done_before.contains(done_before[b]));
                            }
                        }
                    }
                    assert(border_resolved(old_map, position,
                        self.dimension.chunks@[position].held())) by {
                        assert(hood_position(position, 13) == position);
                        assert(before.dimension.present_at(hood_position(position, 13)));
                        assert(old_map.contains_key(position));
                        assert forall|i: int| 0 <= i < 27 implies old_map.contains_key(
                            #[trigger] hood_position(position, i),
                        ) && old_map[hood_position(position, i)].present() && old_map[hood_position(
                            position,
                            i,
                        )].held().wf() && before.dimension.chunks@[hood_position(
                            position,
                            i,
                        )].held().wf() by {
                            assert(before.dimension.present_at(hood_position(position, i)));
                            assert(old(self).dimension.chunks@.contains_key(
                                hood_position(position, i),
                            ));
                            assert(before.dimension.chunks@.contains_key(hood_position(position,
                                i)));
                        }
                        lemma_border_resolved_blocks(
                            old_map,
                            before.dimension.chunks@,
                            position,
                            self.dimension.chunks@[position].held(),
                        );
                    }
                    assert forall|p: ChunkPosition| #[trigger]
                        done@.contains(p) implies candidates@.take(k + 1).contains(p) && old(self).border_due(p) && border_resolved(
                        old_map,
                        p,
                        self.dimension.chunks@[p].held(),
                    ) by {
                        if p != position {
                            assert(done_before.contains(p));
                            assert(hood_position(p, 13) == p);
                            assert(old(self).dimension.present_at(hood_position(p, 13)));
                            assert(before.dimension.chunks@.contains_key(p));
                        }
                    }
                    assert forall|p: ChunkPosition|
                        candidates@.take(k + 1).contains(p) && old(self).border_due(p) && !(
                        #[trigger] done@.contains(p)) implies done@.len() == MAX_PROCESS by {
                        assert(!done_before.contains(p));
                    }
                    assert forall|q: ChunkPosition|
                        old_map.contains_key(q) && !done@.contains(q)
                            implies #[trigger] self.dimension.chunks@[q] == old_map[q] by {
                        assert(!done_before.contains(q));
                        assert(before.dimension.chunks@[q] == old_map[q]);
                        assert(before.dimension.chunks@.contains_key(q));
                    }
                }
            }
            k = k + 1;
        }
        proof {
            assert(candidates@.take(candidates@.len() as int) =~= candidates@);
        }
        done
    }
}

/// Whether `state` is what the activation of a chunk with the blocks
/// `blocks` at level `level` leaves at the chunk's position: a fresh chunk
/// with those blocks; active and with nothing derived if none of the blocks
/// is opaque, else in stasis and with every cell's inner visibility and
/// brightness derived.
pub open spec fn activated_state(state: ChunkState<ClientChunk>, level: nat,
    blocks: Seq<Block>) -> bool {
    let chunk = state.held();
    &&& state.present()
    &&& chunk.level() == level
    &&& chunk.inner_dirty
    &&& chunk.neighbor_direction_visibility_mask == 0
    &&& chunk.neighbor_direction_ao_mask == 0
    &&& chunk@.len() == volume(level)
    &&& blocks.len() >= chunk@.len()
    &&& forall|i: int| 0 <= i < chunk@.len() ==> (#[trigger] chunk@[i]).block == blocks[i]
    &&& if all_clear(blocks, volume(level)) {
        &&& state is Active
        &&& forall|i: int|
            0 <= i < chunk@.len() ==> (#[trigger] chunk@[i]).visible_mask == 0 && chunk@[i].ambient@
                == seq![0u8, 0u8, 0u8, 0u8, 0u8, 0u8]
    } else {
        &&& state is Stasis
        &&& derived_from(chunk@, level, blocks)
    }
}

/// Whether `after` is the world `before` once the activation of the chunk
/// at `p` with the blocks `blocks` at level `level` has gone through.
pub open spec fn activation_applied(
    before: &ClientWorld,
    after: &ClientWorld,
    p: ChunkPosition,
    level: nat,
    blocks: Seq<Block>,
) -> bool {
    &&& after.dimension.chunks@.dom() == before.dimension.chunks@.dom().insert(p)
    &&& forall|q: ChunkPosition|
        q != p && before.dimension.chunks@.contains_key(q)
            ==> #[trigger] after.dimension.chunks@[q] == before.dimension.chunks@[q]
    &&& activated_state(after.dimension.chunks@[p], level, blocks)
    &&& if all_clear(blocks, volume(level)) {
        after.needs_visibility@ == before.needs_visibility@ && after.needs_ao@
            == before.needs_ao@
    } else {
        after.needs_visibility@ == before.needs_visibility@.insert(p) && after.needs_ao@
            == before.needs_ao@.insert(p)
    }
}

/// Whether two chunk states look the same: the same tag and, for states
/// that hold a chunk, the same level, the same masks and cell by cell the
/// same block, visibility and brightness.
pub open spec fn same_observed(a: ChunkState<ClientChunk>, b: ChunkState<ClientChunk>) -> bool {
    &&& a.same_tag(b)
    &&& a.present() ==> {
        &&& a.held().same_frame(&b.held())
        &&& a.held()@.len() == b.held()@.len()
        &&& forall|i: int|
            0 <= i < a.held()@.len() ==> (#[trigger] a.held()@[i]).block == b.held()@[i].block
                && a.held()@[i].visible_mask == b.held()@[i].visible_mask && a.held()@[i].ambient@
                == b.held()@[i].ambient@
    }
}

/// Two states that the activation of the same blocks at the same level
/// leaves look the same.
pub proof fn lemma_activated_state_unique(
    a: ChunkState<ClientChunk>,
    b: ChunkState<ClientChunk>,
    level: nat,
    blocks: Seq<Block>,
)
    requires
        level <= 5,
        activated_state(a, level, blocks),
        activated_state(b, level, blocks),
    ensures
        same_observed(a, b),
{
    let ca = a.held()@;
    let cb = b.held()@;
    let n = axis_len(level);
    lemma_lod_table(level);
    if !all_clear(blocks, volume(level)) {
        assert forall|i: int| 0 <= i < ca.len() implies (#[trigger] ca[i]).visible_mask
            == cb[i].visible_mask && ca[i].ambient@ == cb[i].ambient@ by {
            assert(derived_cell(ca, n, i, ca[i]));
            assert(derived_cell(cb, n, i, cb[i]));
            assert forall|j: u8| j < 8 implies bit_set(ca[i].visible_mask, j) == bit_set(
                cb[i].visible_mask,
                j,
            ) by {
                if j < 6 {
                    let d = Direction::of_index(j as nat);
                    assert(d.index() == j);
                    lemma_derived_blocks(ca, cb, n, i, d);
                } else {
                    assert(j == 6 || j == 7);
                }
            }
            lemma_bits_decide(ca[i].visible_mask, cb[i].visible_mask);
            assert(ca[i].ambient@ =~= cb[i].ambient@) by {
                assert forall|j: int| 0 <= j < 6 implies ca[i].ambient@[j] == cb[i].ambient@[j] by {
                    let d = Direction::of_index(j as nat);
                    assert(d.index() == j);
                    lemma_derived_blocks(ca, cb, n, i, d);
                }
            }
        }
    }
}

/// Applying the same activation a second time changes nothing that can be
/// observed: the chunk map holds the same positions, the chunk at the
/// activated position looks the same, every other chunk is the same, and the
/// same chunks wait.
pub proof fn lemma_activation_idempotent(
    w0: &ClientWorld,
    w1: &ClientWorld,
    w2: &ClientWorld,
    p: ChunkPosition,
    level: nat,
    blocks: Seq<Block>,
)
    requires
        level <= 5,
        activation_applied(w0, w1, p, level, blocks),
        activation_applied(w1, w2, p, level, blocks),
    ensures
        w2.dimension.chunks@.dom() == w1.dimension.chunks@.dom(),
        forall|q: ChunkPosition| #[trigger]
            w1.dimension.chunks@.contains_key(q) ==> same_observed(
                w1.dimension.chunks@[q],
                w2.dimension.chunks@[q],
            ),
        w2.needs_visibility@ == w1.needs_visibility@,
        w2.needs_ao@ == w1.needs_ao@,
{
    lemma_activated_state_unique(w1.dimension.chunks@[p], w2.dimension.chunks@[p], level, blocks);
    assert(w2.dimension.chunks@.dom() =~= w1.dimension.chunks@.dom());
    assert(w2.needs_visibility@ =~= w1.needs_visibility@);
    assert(w2.needs_ao@ =~= w1.needs_ao@);
}

impl ClientWorld {
    /// Takes a message that activates a chunk all the way: the bytes are
    /// expanded, the chunk is filled and derived, and it is put into the
    /// world as `calc_internal` puts it. Says whether the message was taken;
    /// one that `recv_chunk_activations` drops changes nothing.
    pub fn apply_activation(&mut self, position: ChunkPosition, lod: usize,
        bytes: &[u8]) -> (taken: bool)
        requires
            old(self).wf(),
        ensures
            final(self).wf(),
            final(self).dimension.blocks_buffer == old(self).dimension.blocks_buffer,
            final(self).dimension.chunk_updated == old(self).dimension.chunk_updated,
            final(self).dimension.chunk_border_changed == old(self).dimension.chunk_border_changed,
            final(self).dimension.chunk_activations == old(self).dimension.chunk_activations,
            match activation_blocks(lod, bytes@) {
                Some((level, blocks)) => taken && activation_applied(
                    old(self),
                    final(self),
                    position,
                    level,
                    blocks,
                ),
                None => !taken && final(self).dimension.chunks@ == old(self).dimension.chunks@
                    && final(self).needs_visibility == old(self).needs_visibility
                        && final(self).needs_ao == old(self).needs_ao,
            },
    {
        match self.recv_chunk_activations(position, lod, bytes) {
            Some(req) => {
                let ghost fresh = req.chunk;
                let ghost blocks = req.blocks@;
                let resp: InternalResp = internal(req);
                let ghost chunk = resp.chunk;
                self.calc_internal(resp);
                proof {
                    assert(self.dimension.chunks@.dom() =~= old(self).dimension.chunks@.dom().insert(position));
                    let level = fresh.level();
                    assert(fresh@.len() == volume(level));
                    assert(chunk@.len() == fresh@.len());
                    assert(activated_state(self.dimension.chunks@[position], level, blocks));
                    assert(activation_applied(old(self), self, position, level, blocks));
                }
                true
            },
            None => false,
        }
    }
}

/// Whether `after` is the world `before` once a message that activates the
/// chunk at `position` was taken, with `r` as the work handed out: a message
/// that can be read marks the chunk as being generated and hands out a fresh
/// chunk of the level with the blocks to put into it; any other changes
/// nothing and hands out nothing.
pub open spec fn activation_received(
    before: &ClientWorld,
    after: &ClientWorld,
    position: ChunkPosition,
    lod: usize,
    bytes: Seq<u8>,
    r: Option<InternalReq>,
) -> bool {
    &&& after.same_but_chunks(before)
    &&& match activation_blocks(lod, bytes) {
        Some((level, blocks)) => r.is_some() && r.unwrap().wf() && r.unwrap().position
            == position && r.unwrap().blocks@ == blocks && r.unwrap().chunk.level() == level
            && r.unwrap().chunk.inner_dirty && nothing_derived(r.unwrap().chunk@)
            && (forall|i: int|
            0 <= i < r.unwrap().chunk@.len() ==> (#[trigger] r.unwrap().chunk@[i]).block
                == Block::Air)
            && after.dimension.chunks@
                == before.dimension.chunks@.insert(position, ChunkState::Generating),
        None => r.is_none() && after.dimension.chunks@ == before.dimension.chunks@,
    }
}

/// Whether `after` is the world `before` once the chunk that came back from
/// the background was put into it: active at once if it holds nothing but
/// blocks one can see through, else in stasis and waiting for both its shared
/// faces and its border brightness.
pub open spec fn response_taken(before: &ClientWorld, after: &ClientWorld, resp: InternalResp) -> bool {
    &&& after.dimension.blocks_buffer == before.dimension.blocks_buffer
    &&& after.dimension.chunk_updated == before.dimension.chunk_updated
    &&& after.dimension.chunk_border_changed == before.dimension.chunk_border_changed
    &&& after.dimension.chunk_activations == before.dimension.chunk_activations
    &&& resp.all_transparent
        ==> after.dimension.chunks@
        == before.dimension.chunks@.insert(resp.position,
        ChunkState::Active { chunk: resp.chunk })
        && after.needs_ao == before.needs_ao && after.needs_visibility
        == before.needs_visibility
    &&& !resp.all_transparent
        ==> after.dimension.chunks@
        == before.dimension.chunks@.insert(resp.position,
        ChunkState::Stasis { chunk: resp.chunk })
        && after.needs_ao@ == before.needs_ao@.insert(resp.position)
            && after.needs_visibility@
            == before.needs_visibility@.insert(resp.position)
}

/// The cells `cells` with the blocks `blocks` written into them.
pub open spec fn with_blocks(cells: Seq<ClientBlockInfo>, blocks: Seq<Block>) -> Seq<
    ClientBlockInfo,
> {
    Seq::new(cells.len(), |i: int| (ClientBlockInfo { block: blocks[i], ..cells[i] }))
}

/// For each cell of `cells`, whether the block that `blocks` holds for it
/// differs from the block that the cell holds.
pub open spec fn touched_cells(cells: Seq<ClientBlockInfo>, blocks: Seq<Block>) -> Seq<bool> {
    Seq::new(cells.len(), |i: int| cells[i].block != blocks[i])
}

/// Whether `after` is the world `before` once a message that updates the
/// chunk at `position` was taken, `taken` saying whether it was: an active
/// chunk gets the blocks that the bytes expand to and is marked as updated;
/// each cell whose block changed, and each cell next to one inside the
/// chunk, is derived anew, and every other cell keeps what was derived for
/// it. A message for a chunk that is not active, or that cannot be read,
/// changes nothing.
pub open spec fn update_received(
    before: &ClientWorld,
    after: &ClientWorld,
    position: ChunkPosition,
    bytes: Seq<u8>,
    taken: bool,
) -> bool {
    &&& after.needs_visibility == before.needs_visibility
    &&& after.needs_ao == before.needs_ao
    &&& after.dimension.blocks_buffer == before.dimension.blocks_buffer
    &&& after.dimension.chunk_border_changed == before.dimension.chunk_border_changed
    &&& after.dimension.chunk_activations == before.dimension.chunk_activations
    &&& taken == (before.dimension.chunks@.contains_key(position)
        && before.dimension.chunks@[position] is Active && well_formed(bytes)
        && before.dimension.chunks@[position].held()@.len() <= decoded(bytes).len()
        <= CHUNK_SIZE)
    &&& !taken ==> after.dimension.chunks@ == before.dimension.chunks@
        && after.dimension.chunk_updated == before.dimension.chunk_updated
    &&& taken ==> after.dimension.chunk_updated@
        == before.dimension.chunk_updated@.insert(position)
        && after.dimension.chunks@.dom()
        == before.dimension.chunks@.dom()
            && after.dimension.chunks@[position] is Active
        && after.dimension.chunks@[position].held().same_frame(
        &before.dimension.chunks@[position].held(),
    ) && after.dimension.chunks@[position].held()@.len()
        == before.dimension.chunks@[position].held()@.len()
    &&& taken ==> refreshed(
        with_blocks(before.dimension.chunks@[position].held()@, decoded(bytes)),
        after.dimension.chunks@[position].held()@,
        axis_len(before.dimension.chunks@[position].held().level()),
        touched_cells(before.dimension.chunks@[position].held()@, decoded(bytes)),
    )
    &&& forall|p: ChunkPosition|
        p != position && before.dimension.chunks@.contains_key(p)
            ==> #[trigger] after.dimension.chunks@[p]
            == before.dimension.chunks@[p]
}

/// Whether `after` is the world `before` once every chunk that was ready
/// became active: such a chunk, in stasis and waiting for nothing, is active
/// and among the tick's activations; every other chunk is as it was.
pub open spec fn ripe_activated(before: &ClientWorld, after: &ClientWorld) -> bool {
    &&& after.needs_visibility == before.needs_visibility
    &&& after.needs_ao == before.needs_ao
    &&& after.dimension.blocks_buffer == before.dimension.blocks_buffer
    &&& after.dimension.chunk_updated == before.dimension.chunk_updated
    &&& after.dimension.chunk_border_changed == before.dimension.chunk_border_changed
    &&& after.dimension.chunks@.dom() == before.dimension.chunks@.dom()
    &&& forall|p: ChunkPosition| #[trigger]
        before.dimension.chunks@.contains_key(p) ==> after.dimension.chunks@[p]
            == (if before.ripe(p) {
            ChunkState::Active { chunk: before.dimension.chunks@[p].held() }
        } else {
            before.dimension.chunks@[p]
        })
    &&& forall|p: ChunkPosition| #[trigger]
        after.dimension.chunk_activations@.contains(p)
            <==> before.dimension.chunk_activations@.contains(p) || before.ripe(p)
    &&& forall|p: ChunkPosition| #[trigger]
        before.ripe(p)
            ==> before.dimension.chunks@[p].held().neighbor_direction_visibility_mask
            == 63 && before.dimension.chunks@[p].held().neighbor_direction_ao_mask == 63
}

/// Whether `after` is the world `before` once a tick's share of shared
/// faces was resolved, `done` listing the chunks resolved: at most
/// `MAX_PROCESS` chunks, each one waiting, holding data and with all six
/// neighbours, and none left out while the share was not used up. Every face
/// of such a chunk that was not resolved is settled on both sides; no face
/// that was settled is unsettled; no other bit of a mask, no block and no
/// brightness changes. The chunks resolved no longer wait for visibility.
/// What is resolved for brightness, and which chunks wait for it, stays as it
/// was.
pub open spec fn visibility_passed(
    before: &ClientWorld,
    after: &ClientWorld,
    done: Seq<ChunkPosition>,
) -> bool {
    &&& same_world_blocks(before.dimension.chunks@, after.dimension.chunks@)
    &&& done.len() <= MAX_PROCESS
    &&& done.no_duplicates()
    &&& forall|p: ChunkPosition| #[trigger]
        done.contains(p) ==> before.needs_visibility@.contains(p)
            && before.visibility_ready(p)
            && after.dimension.chunks@[p].held().neighbor_direction_visibility_mask == 63
    &&& forall|p: ChunkPosition| #[trigger]
        after.needs_visibility@.contains(p) <==> before.needs_visibility@.contains(
            p,
        ) && !done.contains(p)
    &&& after.needs_ao == before.needs_ao
    &&& forall|q: ChunkPosition| #[trigger]
        before.dimension.present_at(q) ==> after.dimension.chunks@[q].held().neighbor_direction_ao_mask
            == before.dimension.chunks@[q].held().neighbor_direction_ao_mask
    &&& forall|p: ChunkPosition|
        before.needs_visibility@.contains(p) && before.visibility_ready(p) && !(
        #[trigger] done.contains(p)) ==> done.len() == MAX_PROCESS
    &&& forall|q: ChunkPosition|
        before.dimension.present_at(q) && !done.contains(q)
            ==> (#[trigger] after.dimension.chunks@[q]).held().same_frame(&before.dimension.chunks@[q].held())
    &&& forall|q: ChunkPosition| #[trigger]
        before.dimension.present_at(q) ==> masks_kept(
            views(before.dimension.chunks@)[q],
            views(after.dimension.chunks@)[q],
            pass_touch(before.dimension.chunks@, done, q),
        )
    &&& forall|x: ChunkPosition, d: Direction| #[trigger]
        pair_settled(views(before.dimension.chunks@), x, d) ==> pair_settled(
            views(after.dimension.chunks@),
            x,
            d,
        )
    &&& forall|p: ChunkPosition, d: Direction|
        done.contains(p) && !bit_set(
            before.dimension.chunks@[p].held().neighbor_direction_visibility_mask,
            d.index() as u8,
        ) ==> #[trigger] pair_settled(views(after.dimension.chunks@), p, d)
    &&& forall|q: ChunkPosition| #[trigger]
        before.dimension.present_at(q) ==> same_but_visible(
            before.dimension.chunks@[q].held()@,
            after.dimension.chunks@[q].held()@,
        )
    &&& after.dimension.blocks_buffer == before.dimension.blocks_buffer
    &&& after.dimension.chunk_updated == before.dimension.chunk_updated
    &&& after.dimension.chunk_border_changed == before.dimension.chunk_border_changed
    &&& after.dimension.chunk_activations == before.dimension.chunk_activations
}

/// Whether `after` is the world `before` once a tick's share of border
/// brightness was taken, `done` listing the chunks resolved: at most
/// `MAX_PROCESS` chunks, each one waiting for brightness, in stasis, no longer
/// waiting for visibility and standing in a complete block of chunks, and
/// none left out while the share was not used up. Each has its border
/// brightness taken and no longer waits; every other chunk is as it was.
pub open spec fn border_passed(
    before: &ClientWorld,
    after: &ClientWorld,
    done: Seq<ChunkPosition>,
) -> bool {
    &&& same_world_blocks(before.dimension.chunks@, after.dimension.chunks@)
    &&& done.len() <= MAX_PROCESS
    &&& done.no_duplicates()
    &&& forall|p: ChunkPosition| #[trigger]
        done.contains(p) ==> before.needs_ao@.contains(p) && before.border_due(p)
            && border_resolved(
            before.dimension.chunks@,
            p,
            after.dimension.chunks@[p].held(),
        )
    &&& forall|p: ChunkPosition| #[trigger]
        after.needs_ao@.contains(p) <==> before.needs_ao@.contains(p)
            && !done.contains(p)
    &&& forall|p: ChunkPosition|
        before.needs_ao@.contains(p) && before.border_due(p) && !(
        #[trigger] done.contains(p)) ==> done.len() == MAX_PROCESS
    &&& forall|q: ChunkPosition|
        before.dimension.chunks@.contains_key(q) && !done.contains(q)
            ==> #[trigger] after.dimension.chunks@[q]
            == before.dimension.chunks@[q]
    &&& after.needs_visibility == before.needs_visibility
    &&& after.dimension.blocks_buffer == before.dimension.blocks_buffer
    &&& after.dimension.chunk_updated == before.dimension.chunk_updated
    &&& after.dimension.chunk_border_changed == before.dimension.chunk_border_changed
    &&& after.dimension.chunk_activations == before.dimension.chunk_activations
}

/// The work that the messages before the last one handed out, `handed`
/// saying whether the last one handed out the last piece.
pub open spec fn handed_before(requests: Seq<InternalReq>, handed: bool) -> Seq<InternalReq> {
    if handed {
        requests.drop_last()
    } else {
        requests
    }
}

/// The work that the last message handed out, if it handed out any.
pub open spec fn handed_last(requests: Seq<InternalReq>, handed: bool) -> Option<InternalReq> {
    if handed {
        Some(requests.last())
    } else {
        None
    }
}

/// Whether `after` is the world `before` once the messages that activate
/// chunks were taken one after the other, `requests` being the work handed
/// out, one piece for every message that could be read, in the order of the
/// messages.
pub open spec fn activations_taken(
    before: &ClientWorld,
    after: &ClientWorld,
    activations: Seq<ChunkActivated>,
    requests: Seq<InternalReq>,
) -> bool
    decreases activations.len(),
{
    if activations.len() == 0 {
        after == before && requests.len() == 0
    } else {
        let m = activations.last();
        let handed = activation_blocks(m.lod, m.bytes@).is_some();
        &&& handed ==> requests.len() > 0
        &&& exists|mid: ClientWorld|
            activations_taken(
                before,
                &mid,
                activations.drop_last(),
                handed_before(requests, handed),
            ) && #[trigger] activation_received(
                &mid,
                after,
                m.position,
                m.lod,
                m.bytes@,
                handed_last(requests, handed),
            )
    }
}

/// Whether `after` is the world `before` once the chunks that came back
/// from the background were put into it one after the other.
pub open spec fn responses_taken(
    before: &ClientWorld,
    after: &ClientWorld,
    responses: Seq<InternalResp>,
) -> bool
    decreases responses.len(),
{
    if responses.len() == 0 {
        after == before
    } else {
        exists|mid: ClientWorld|
            responses_taken(before, &mid, responses.drop_last()) && #[trigger] response_taken(
                &mid,
                after,
                responses.last(),
            )
    }
}

/// Whether `after` is the world `before` once the messages that update
/// chunks were taken one after the other.
pub open spec fn updates_taken(
    before: &ClientWorld,
    after: &ClientWorld,
    updates: Seq<ChunkUpdated>,
) -> bool
    decreases updates.len(),
{
    if updates.len() == 0 {
        after == before
    } else {
        exists|mid: ClientWorld, taken: bool|
            updates_taken(before, &mid, updates.drop_last()) && #[trigger] update_received(
                &mid,
                after,
                updates.last().position,
                updates.last().bytes@,
                taken,
            )
    }
}

/// Whether the worlds `a` to `e` are what a fixed tick passes through on
/// its way from `before` to `after`, in the order of its steps: `a` after the
/// activations were taken, `b` after the chunks from the background were put
/// in, `c` after the share of shared faces was resolved, with `seen` as the
/// chunks resolved, `d` after the share of border brightness was taken, with
/// `lit` as the chunks resolved, `e` after what was ready became active, and
/// `after` once the updates were taken.
pub open spec fn tick_steps(
    before: &ClientWorld,
    a: &ClientWorld,
    b: &ClientWorld,
    c: &ClientWorld,
    d: &ClientWorld,
    e: &ClientWorld,
    after: &ClientWorld,
    seen: Seq<ChunkPosition>,
    lit: Seq<ChunkPosition>,
    activations: Seq<ChunkActivated>,
    responses: Seq<InternalResp>,
    updates: Seq<ChunkUpdated>,
    requests: Seq<InternalReq>,
) -> bool {
    &&& activations_taken(before, a, activations, requests)
    &&& responses_taken(a, b, responses)
    &&& visibility_passed(b, c, seen)
    &&& border_passed(c, d, lit)
    &&& ripe_activated(d, e)
    &&& updates_taken(e, after, updates)
}

/// Whether `after` is the world `before` once a fixed tick went through:
/// the world passed through the tick's six steps in their order, and
/// `requests` is the work that the first step handed out.
pub open spec fn ticked(
    before: &ClientWorld,
    after: &ClientWorld,
    activations: Seq<ChunkActivated>,
    responses: Seq<InternalResp>,
    updates: Seq<ChunkUpdated>,
    requests: Seq<InternalReq>,
) -> bool {
    exists|
        a: ClientWorld,
        b: ClientWorld,
        c: ClientWorld,
        d: ClientWorld,
        e: ClientWorld,
        seen: Seq<ChunkPosition>,
        lit: Seq<ChunkPosition>,
    | #[trigger]
        tick_steps(
            before,
            &a,
            &b,
            &c,
            &d,
            &e,
            after,
            seen,
            lit,
            activations,
            responses,
            updates,
            requests,
        )
}

impl ClientWorld {
    /// The world's share of one fixed tick, in its order: the activations
    /// that came in are taken and their work handed out; the chunks that came
    /// back from the background are put into the world; shared faces are
    /// resolved, then border brightness taken, each within the tick's share;
    /// what is ready becomes active; and the updates that came in are taken.
    /// The result is the work to hand to the background.
    pub fn fixed_tick(
        &mut self,
        activations: &Vec<ChunkActivated>,
        responses: Vec<InternalResp>,
        updates: &Vec<ChunkUpdated>,
    ) -> (requests: Vec<InternalReq>)
        requires
            old(self).wf(),
            forall|k: int| 0 <= k < responses@.len() ==> (#[trigger] responses@[k]).wf(),
        ensures
            final(self).wf(),
            ticked(old(self), final(self), activations@, responses@, updates@, requests@),
            requests@.len() <= activations@.len(),
            forall|k: int| 0 <= k < requests@.len() ==> (#[trigger] requests@[k]).wf(),
            final(self).dimension.blocks_buffer == old(self).dimension.blocks_buffer,
            final(self).dimension.chunk_border_changed == old(self).dimension.chunk_border_changed,
    {
        let mut requests: Vec<InternalReq> = Vec::new();
        let mut a: usize = 0;
        proof {
            assert(activations@.take(0).len() == 0);
        }
        while a < activations.len()
            invariant
                a <= activations@.len(),
                self.wf(),
                requests@.len() <= a,
                forall|k: int| 0 <= k < requests@.len() ==> (#[trigger] requests@[k]).wf(),
                activations_taken(old(self), self, activations@.take(a as int), requests@),
                self.dimension.blocks_buffer == old(self).dimension.blocks_buffer,
                self.dimension.chunk_border_changed == old(self).dimension.chunk_border_changed,
            decreases activations@.len() - a,
        {
            let message: &ChunkActivated = &activations[a];
            let ghost before = *self;
            let ghost requests_before = requests@;
            let ghost r = None::<InternalReq>;
            match self.recv_chunk_activations(message.position, message.lod,
                message.bytes.as_slice()) {
                Some(req) => {
                    proof {
                        r = Some(req);
                    }
                    requests.push(req);
                },
                None => {},
            }
            proof {
                let taken = activations@.take(a + 1);
                assert(taken.drop_last() =~= activations@.take(a as int));
                assert(taken.last() == *message);
                let handed = activation_blocks(message.lod, message.bytes@).is_some();
                if handed {
                    assert(requests@.drop_last() =~= requests_before);
                    assert(requests@.last() == r.unwrap());
                }
                assert(activations_taken(
                    old(self),
                    &before,
                    taken.drop_last(),
                    handed_before(requests@, handed),
                ) && activation_received(
                    &before,
                    self,
                    message.position,
                    message.lod,
                    message.bytes@,
                    handed_last(requests@, handed),
                ));
            }
            a = a + 1;
        }
        let ghost world_a = *self;
        let mut waiting: Vec<InternalResp> = responses;
        let ghost all = waiting@;
        let count: usize = waiting.len();
        let mut k: usize = 0;
        proof {
            assert(activations@.take(activations@.len() as int) =~= activations@);
            assert(all.skip(0) =~= all);
            assert(all.take(0).len() == 0);
        }
        while waiting.len() > 0
            invariant
                k + waiting@.len() == count,
                count == all.len(),
                all == responses@,
                waiting@ == all.skip(k as int),
                forall|j: int| 0 <= j < all.len() ==> (#[trigger] all[j]).wf(),
                self.wf(),
                responses_taken(&world_a, self, all.take(k as int)),
                self.dimension.blocks_buffer == old(self).dimension.blocks_buffer,
                self.dimension.chunk_border_changed == old(self).dimension.chunk_border_changed,
            decreases waiting@.len(),
        {
            let resp: InternalResp = waiting.remove(0);
            let ghost before = *self;
            proof {
                assert(resp == all[k as int]);
                assert(waiting@ =~= all.skip(k + 1));
            }
            self.calc_internal(resp);
            proof {
                let taken = all.take(k + 1);
                assert(taken.drop_last() =~= all.take(k as int));
                assert(taken.last() == resp);
                assert(responses_taken(&world_a, &before, taken.drop_last()) && response_taken(
                    &before,
                    self,
                    taken.last(),
                ));
            }
            k = k + 1;
        }
        let ghost world_b = *self;
        proof {
            assert(all.take(count as int) =~= all);
        }
        let seen: Vec<ChunkPosition> = self.calc_visibility();
        let ghost world_c = *self;
        let lit: Vec<ChunkPosition> = self.calc_border_ao();
        let ghost world_d = *self;
        self.activate();
        let ghost world_e = *self;
        let mut u: usize = 0;
        proof {
            assert(updates@.take(0).len() == 0);
        }
        while u < updates.len()
            invariant
                u <= updates@.len(),
                self.wf(),
                updates_taken(&world_e, self, updates@.take(u as int)),
                self.dimension.blocks_buffer == old(self).dimension.blocks_buffer,
                self.dimension.chunk_border_changed == old(self).dimension.chunk_border_changed,
            decreases updates@.len() - u,
        {
            let message: &ChunkUpdated = &updates[u];
            let ghost before = *self;
            let taken: bool = self.recv_chunk_updates(message.position, message.bytes.as_slice());
            proof {
                let so_far = updates@.take(u + 1);
                assert(so_far.drop_last() =~= updates@.take(u as int));
                assert(so_far.last() == *message);
                assert(updates_taken(&world_e, &before, so_far.drop_last()) && update_received(
                    &before,
                    self,
                    so_far.last().position,
                    so_far.last().bytes@,
                    taken,
                ));
            }
            u = u + 1;
        }
        proof {
            assert(updates@.take(updates@.len() as int) =~= updates@);
            assert(tick_steps(
                old(self),
                &world_a,
                &world_b,
                &world_c,
                &world_d,
                &world_e,
                self,
                seen@,
                lit@,
                activations@,
                responses@,
                updates@,
                requests@,
            ));
        }
        requests
    }
}

/// In a well-formed world a chunk that is ready to become active has all
/// six faces resolved, for visibility and for brightness: no chunk becomes
/// active through `activate` while a bit of either mask is unset.
pub proof fn lemma_ripe_is_resolved(world: &ClientWorld, p: ChunkPosition)
    requires
        world.wf(),
        world.ripe(p),
    ensures
        world.dimension.chunks@[p].held().neighbor_direction_visibility_mask == 63,
        world.dimension.chunks@[p].held().neighbor_direction_ao_mask == 63,
{
    assert(world.dimension.chunks@.contains_key(p));
}

/// In a well-formed world a chunk whose faces are all resolved for
/// brightness has them all resolved for visibility.
pub proof fn lemma_brightness_follows_visibility(world: &ClientWorld, p: ChunkPosition)
    requires
        world.wf(),
        world.dimension.present_at(p),
        world.dimension.chunks@[p].held().neighbor_direction_ao_mask == 63,
    ensures
        world.dimension.chunks@[p].held().neighbor_direction_visibility_mask == 63,
{
    assert(world.dimension.chunks@.contains_key(p));
}

} // verus!
