use std::collections::HashMap;
use vstd::prelude::*;

use crate::world::block::Block;
use crate::world::structure::{chunk_size, lemma_lod_table, volume, CHUNK_SIZE, MAX_LOD};

verus! {

broadcast use vstd::std_specs::hash::group_hash_axioms;

/// What a client keeps for one cell: the block and what was derived from
/// its surroundings.
#[derive(Clone, Copy, Debug, PartialEq, Eq)]
pub struct ClientBlockInfo {
    pub block: Block,
    /// One bit per face, set where the face is to be drawn.
    pub visible_mask: u8,
    /// Per face, the occlusion of its four corners, two bits each.
    pub ambient: [u8; 6],
}

/// What the server keeps for one cell.
#[derive(Clone, Copy, Debug, PartialEq, Eq)]
pub struct ServerBlockInfo {
    pub block: Block,
    pub rotation: u8,
}

impl Default for ClientBlockInfo {
    fn default() -> (r: ClientBlockInfo)
        ensures
            r.block == Block::Air,
            r.visible_mask == 0,
            r.ambient@ == seq![0u8, 0u8, 0u8, 0u8, 0u8, 0u8],
    {
        let r = ClientBlockInfo { block: Block::Air, visible_mask: 0, ambient: [0, 0, 0, 0, 0, 0] };
        assert(r.ambient@ =~= seq![0u8, 0u8, 0u8, 0u8, 0u8, 0u8]);
        r
    }
}

impl Default for ServerBlockInfo {
    fn default() -> (r: ServerBlockInfo)
        ensures
            r.block == Block::Air,
            r.rotation == 0,
    {
        ServerBlockInfo { block: Block::Air, rotation: 0 }
    }
}

/// Read access to the block of a cell.
pub trait BlockRef {
    /// The block that the cell holds.
    spec fn held(&self) -> Block;

    fn block_ref(&self) -> (r: &Block)
        ensures
            *r == self.held(),
    ;
}

/// Write access to the block of a cell.
pub trait BlockMut {
    /// The block that the cell holds.
    spec fn held(&self) -> Block;

    fn block_ref(&self) -> (r: &Block)
        ensures
            *r == self.held(),
    ;

    fn block_mut(&mut self) -> (r: &mut Block)
        ensures
            *r == old(self).held(),
            final(self).held() == *final(r),
    ;
}

impl BlockRef for ClientBlockInfo {
    open spec fn held(&self) -> Block {
        self.block
    }

    fn block_ref(&self) -> (r: &Block) {
        &self.block
    }
}

impl BlockMut for ClientBlockInfo {
    open spec fn held(&self) -> Block {
        self.block
    }

    fn block_ref(&self) -> (r: &Block) {
        &self.block
    }

    fn block_mut(&mut self) -> (r: &mut Block)
        ensures
            final(self).visible_mask == old(self).visible_mask,
            final(self).ambient == old(self).ambient,
    {
        &mut self.block
    }
}

impl BlockRef for ServerBlockInfo {
    open spec fn held(&self) -> Block {
        self.block
    }

    fn block_ref(&self) -> (r: &Block) {
        &self.block
    }
}

impl BlockMut for ServerBlockInfo {
    open spec fn held(&self) -> Block {
        self.block
    }

    fn block_ref(&self) -> (r: &Block) {
        &self.block
    }

    fn block_mut(&mut self) -> (r: &mut Block)
        ensures
            final(self).rotation == old(self).rotation,
    {
        &mut self.block
    }
}

/// What happened to a cell's tile when its block was written.
#[derive(Clone, Copy, Debug, PartialEq, Eq, Structural)]
pub enum TileTransition {
    /// A tile with this id was created for the cell.
    Spawned(u64),
    /// The cell's tile with this id was destroyed.
    Despawned(u64),
    /// The cell's tile `old` was destroyed and the tile `new` created.
    Replaced { old: u64, new: u64 },
}

/// A cube of blocks at one level of detail, the unit of storage.
pub trait Chunk: Sized {
    /// The chunk's own consistency: its level exists and it holds one entry
    /// for each of the level's cells.
    spec fn wf(&self) -> bool;

    /// The chunk's level of detail.
    spec fn lod(&self) -> nat;

    /// The chunk's blocks by flat index.
    spec fn blocks(&self) -> Seq<Block>;

    /// A chunk of air.
    fn new(lod: usize) -> (r: Self)
        ensures
            r.wf(),
            forall|i: int| 0 <= i < r.blocks().len() ==> r.blocks()[i] == Block::Air,
    ;

    fn lod_level(&self) -> (r: usize)
        requires
            self.wf(),
        ensures
            r == self.lod(),
            r <= MAX_LOD,
    ;

    /// Number of cells.
    fn size(&self) -> (r: usize)
        requires
            self.wf(),
        ensures
            r == self.blocks().len(),
            r == volume(self.lod()),
            1 <= r <= CHUNK_SIZE,
    ;

    /// The block at flat index `i`.
    fn block_at(&self, i: usize) -> (r: Block)
        requires
            self.wf(),
            i < self.blocks().len(),
        ensures
            r == self.blocks()[i as int],
    ;

    /// Writes `block` at flat index `i` and reports what became of the
    /// cell's tile.
    fn put_block(&mut self, i: usize, block: Block) -> (r: Option<TileTransition>)
        requires
            old(self).wf(),
            i < old(self).blocks().len(),
        ensures
            final(self).wf(),
            final(self).lod() == old(self).lod(),
            final(self).blocks() == old(self).blocks().update(i as int, block),
    ;
}

pub struct ClientChunk {
    pub lod: usize,
    pub data: Vec<ClientBlockInfo>,
    pub inner_dirty: bool,
    /// Bit per direction: the face shared with that neighbour is resolved.
    pub neighbor_direction_visibility_mask: u8,
    /// Bit per direction: occlusion across that face is resolved.
    pub neighbor_direction_ao_mask: u8,
}

impl View for ClientChunk {
    type V = Seq<ClientBlockInfo>;

    open spec fn view(&self) -> Seq<ClientBlockInfo> {
        self.data@
    }
}

impl ClientChunk {
    /// The level of detail the chunk was made with.
    pub open spec fn level(&self) -> nat {
        self.lod as nat
    }

    /// The level exists and there is one entry for each of its cells.
    pub open spec fn well_formed(&self) -> bool {
        &&& self.level() <= MAX_LOD
        &&& self@.len() == volume(self.level())
    }

    /// Whether `other` is this chunk but for its cell entries.
    pub open spec fn same_frame(&self, other: &ClientChunk) -> bool {
        &&& self.level() == other.level()
        &&& self.inner_dirty == other.inner_dirty
        &&& self.neighbor_direction_visibility_mask == other.neighbor_direction_visibility_mask
        &&& self.neighbor_direction_ao_mask == other.neighbor_direction_ao_mask
    }

    /// The entry of the cell at flat index `i`.
    pub fn get(&self, i: usize) -> (r: &ClientBlockInfo)
        requires
            i < self@.len(),
        ensures
            *r == self@[i as int],
    {
        &self.data[i]
    }

    /// The entry of the cell at flat index `i`, for writing.
    pub fn get_mut(&mut self, i: usize) -> (r: &mut ClientBlockInfo)
        requires
            i < old(self)@.len(),
        ensures
            *r == old(self)@[i as int],
            final(self)@ == old(self)@.update(i as int, *final(r)),
            final(self).same_frame(old(self)),
    {
        &mut self.data[i]
    }

    /// Replaces the entry of the cell at flat index `i`.
    pub fn set(&mut self, i: usize, info: ClientBlockInfo)
        requires
            i < old(self)@.len(),
        ensures
            final(self)@ == old(self)@.update(i as int, info),
            final(self).same_frame(old(self)),
    {
        self.data[i] = info;
    }
}

impl Chunk for ClientChunk {
    open spec fn wf(&self) -> bool {
        self.well_formed()
    }

    open spec fn lod(&self) -> nat {
        self.level()
    }

    open spec fn blocks(&self) -> Seq<Block> {
        Seq::new(self@.len(), |i: int| self@[i].block)
    }

    /// A chunk of air at level `lod`, or at the coarsest level if `lod` lies
    /// beyond it, with nothing derived yet.
    fn new(lod: usize) -> (r: ClientChunk)
        ensures
            r.level() == if lod <= MAX_LOD {
                lod
            } else {
                MAX_LOD
            },
            forall|i: int|
                0 <= i < r@.len() ==> r@[i].visible_mask == 0 && r@[i].ambient@ == seq![
                    0u8,
                    0u8,
                    0u8,
                    0u8,
                    0u8,
                    0u8,
                ],
            r.inner_dirty,
            r.neighbor_direction_visibility_mask == 0,
            r.neighbor_direction_ao_mask == 0,
    {
        let lod: usize = if lod <= MAX_LOD {
            lod
        } else {
            MAX_LOD
        };
        proof {
            lemma_lod_table(lod as nat);
        }
        let n: usize = chunk_size(lod);
        let mut data: Vec<ClientBlockInfo> = Vec::new();
        let mut i: usize = 0;
        while i < n
            invariant
                i <= n,
                data@.len() == i,
                forall|k: int|
                    0 <= k < i ==> data@[k].block == Block::Air && data@[k].visible_mask == 0
                        && data@[k].ambient@ == seq![0u8, 0u8, 0u8, 0u8, 0u8, 0u8],
            decreases n - i,
        {
            data.push(ClientBlockInfo::default());
            i = i + 1;
        }
        ClientChunk {
            lod,
            data,
            neighbor_direction_ao_mask: 0,
            neighbor_direction_visibility_mask: 0,
            inner_dirty: true,
        }
    }

    fn lod_level(&self) -> (r: usize) {
        self.lod
    }

    fn size(&self) -> (r: usize) {
        proof {
            lemma_lod_table(self.lod as nat);
        }
        self.data.len()
    }

    fn block_at(&self, i: usize) -> (r: Block) {
        self.data[i].block
    }

    /// Writes the block and leaves what was derived for the cell as it is.
    /// A client keeps no tiles, so nothing is reported.
    fn put_block(&mut self, i: usize, block: Block) -> (r: Option<TileTransition>)
        ensures
            r.is_none(),
            final(self)@ == old(self)@.update(
                i as int,
                (ClientBlockInfo { block, ..old(self)@[i as int] }),
            ),
            final(self).same_frame(old(self)),
    {
        let mut info: ClientBlockInfo = self.data[i];
        info.block = block;
        self.data[i] = info;
        assert(self.blocks() =~= old(self).blocks().update(i as int, block));
        None
    }
}

/// The server's chunk: its cells at one level of detail, with a registry of
/// tiles for the cells whose block is simulated.
pub struct ServerChunk {
    lod: usize,
    data: Vec<ServerBlockInfo>,
    /// Cell of each live tile.
    tiles: HashMap<u64, usize>,
    /// Tile of each cell that has one.
    mapping: HashMap<usize, u64>,
    /// The id that the next tile gets.
    next_tile: u64,
}

impl View for ServerChunk {
    type V = Seq<ServerBlockInfo>;

    closed spec fn view(&self) -> Seq<ServerBlockInfo> {
        self.data@
    }
}

impl ServerChunk {
    /// The level of detail the chunk was made with.
    pub closed spec fn level(&self) -> nat {
        self.lod as nat
    }

    /// The tile of each cell that has one, by flat index.
    pub closed spec fn tile_map(&self) -> Map<usize, u64> {
        self.mapping@
    }

    /// The cell of each live tile.
    pub closed spec fn tile_cells(&self) -> Map<u64, usize> {
        self.tiles@
    }

    /// The id that the next tile will get.
    pub closed spec fn next_id(&self) -> u64 {
        self.next_tile
    }

    /// The registry's consistency: the two maps are inverse to each other,
    /// every tile sits on a cell of the chunk, and no live id is one that is
    /// still to be given out.
    pub open spec fn registry_consistent(&self) -> bool {
        &&& forall|i: usize| #[trigger]
            self.tile_map().contains_key(i) ==> i < self@.len() && self.tile_cells().contains_key(
                self.tile_map()[i],
            ) && self.tile_cells()[self.tile_map()[i]] == i
        &&& forall|t: u64| #[trigger]
            self.tile_cells().contains_key(t) ==> t < self.next_id()
                && self.tile_map().contains_key(
                self.tile_cells()[t],
            ) && self.tile_map()[self.tile_cells()[t]] == t
    }

    /// The level exists, there is one entry for each of its cells, and the
    /// registry is consistent.
    pub open spec fn well_formed(&self) -> bool {
        &&& self.level() <= MAX_LOD
        &&& self@.len() == volume(self.level())
        &&& self.registry_consistent()
    }

    /// The entry of the cell at flat index `i`.
    pub fn get(&self, i: usize) -> (r: &ServerBlockInfo)
        requires
            i < self@.len(),
        ensures
            *r == self@[i as int],
    {
        &self.data[i]
    }

    /// The tile of the cell at flat index `i`, if it has one.
    pub fn tile_at(&self, i: usize) -> (r: Option<u64>)
        ensures
            r == (if self.tile_map().contains_key(i) {
                Some(self.tile_map()[i])
            } else {
                None
            }),
    {
        match self.mapping.get(&i) {
            Some(t) => Some(*t),
            None => None,
        }
    }

    /// The cell that the tile `tile` sits on, if the tile is alive.
    pub fn cell_of(&self, tile: u64) -> (r: Option<usize>)
        ensures
            r == (if self.tile_cells().contains_key(tile) {
                Some(self.tile_cells()[tile])
            } else {
                None
            }),
    {
        match self.tiles.get(&tile) {
            Some(i) => Some(*i),
            None => None,
        }
    }

    /// The bound below which every tile id lies that was ever given out.
    pub fn tile_bound(&self) -> (r: u64)
        ensures
            r == self.next_id(),
    {
        self.next_tile
    }

    /// Sets the rotation of the cell at flat index `i`.
    pub fn set_rotation(&mut self, i: usize, rotation: u8)
        requires
            old(self).well_formed(),
            i < old(self)@.len(),
        ensures
            final(self).well_formed(),
            final(self)@ == old(self)@.update(
                i as int,
                (ServerBlockInfo { rotation, ..old(self)@[i as int] }),
            ),
            final(self).level() == old(self).level(),
            final(self).tile_map() == old(self).tile_map(),
            final(self).tile_cells() == old(self).tile_cells(),
            final(self).next_id() == old(self).next_id(),
    {
        let mut info: ServerBlockInfo = self.data[i];
        info.rotation = rotation;
        self.data[i] = info;
        proof {
            lemma_registry_frame(old(self), self);
        }
    }

    /// Destroys the tile of the cell `i`, if it has one, and says which.
    fn despawn_tile(&mut self, i: usize) -> (r: Option<u64>)
        requires
            old(self).registry_consistent(),
        ensures
            final(self).registry_consistent(),
            final(self)@ == old(self)@,
            final(self).level() == old(self).level(),
            final(self).next_id() == old(self).next_id(),
            !final(self).tile_map().contains_key(i),
            final(self).tile_map() == old(self).tile_map().remove(i),
            r == (if old(self).tile_map().contains_key(i) {
                Some(old(self).tile_map()[i])
            } else {
                None
            }),
    {
        match self.tile_at(i) {
            Some(t) => {
                self.tiles.remove(&t);
                self.mapping.remove(&i);
                assert(self.mapping@ =~= old(self).mapping@.remove(i));
                Some(t)
            },
            None => {
                assert(self.mapping@ =~= old(self).mapping@.remove(i));
                None
            },
        }
    }

    /// Creates a tile for the cell `i`, which has none, and says which; no
    /// tile is created once the ids have run out.
    fn spawn_tile(&mut self, i: usize) -> (r: Option<u64>)
        requires
            old(self).registry_consistent(),
            i < old(self)@.len(),
            !old(self).tile_map().contains_key(i),
        ensures
            final(self).registry_consistent(),
            final(self)@ == old(self)@,
            final(self).level() == old(self).level(),
            match r {
                Some(t) => t == old(self).next_id() && final(self).next_id() == t + 1
                    && final(self).tile_map() == old(self).tile_map().insert(i, t),
                None => old(self).next_id() == u64::MAX && final(self).next_id() == u64::MAX
                    && final(self).tile_map() == old(self).tile_map(),
            },
    {
        if self.next_tile == u64::MAX {
            return None;
        }
        let t: u64 = self.next_tile;
        self.next_tile = t + 1;
        self.tiles.insert(t, i);
        self.mapping.insert(i, t);
        proof {
            assert(self.tile_map() == old(self).tile_map().insert(i, t));
            assert(self.tile_cells() == old(self).tile_cells().insert(t, i));
            assert(!old(self).tile_cells().contains_key(t));
            assert forall|j: usize| #[trigger] self.tile_map().contains_key(j) implies j
                < self@.len() && self.tile_cells().contains_key(self.tile_map()[j])
                && self.tile_cells()[self.tile_map()[j]] == j by {
                if j != i {
                    assert(old(self).tile_map().contains_key(j));
                }
            }
            assert forall|u: u64| #[trigger] self.tile_cells().contains_key(u) implies u
                < self.next_id() && self.tile_map().contains_key(self.tile_cells()[u])
                && self.tile_map()[self.tile_cells()[u]] == u by {
                if u != t {
                    assert(old(self).tile_cells().contains_key(u));
                }
            }
        }
        Some(t)
    }
}

/// A chunk with the registry of a consistent chunk, and as many cells, is
/// consistent.
proof fn lemma_registry_frame(a: &ServerChunk, b: &ServerChunk)
    requires
        a.registry_consistent(),
        a.tile_map() == b.tile_map(),
        a.tile_cells() == b.tile_cells(),
        a.next_id() == b.next_id(),
        a@.len() == b@.len(),
    ensures
        b.registry_consistent(),
{
}

/// What becomes of a cell's tile when a cell that has the tile `had` and
/// holds `before` is written with `after`, the next free id being `next`:
/// nothing if the block stays the same; otherwise the old tile goes and a
/// block that bears a tile gets a new one.
pub open spec fn tile_transition(before: Block, after: Block, had: Option<u64>,
    next: u64) -> Option<
    TileTransition,
> {
    if before == after {
        None
    } else {
        let spawns = after.bears_tile() && next < u64::MAX;
        match had {
            Some(t) => if spawns {
                Some(TileTransition::Replaced { old: t, new: next })
            } else {
                Some(TileTransition::Despawned(t))
            },
            None => if spawns {
                Some(TileTransition::Spawned(next))
            } else {
                None
            },
        }
    }
}

impl Chunk for ServerChunk {
    open spec fn wf(&self) -> bool {
        self.well_formed()
    }

    open spec fn lod(&self) -> nat {
        self.level()
    }

    open spec fn blocks(&self) -> Seq<Block> {
        Seq::new(self@.len(), |i: int| self@[i].block)
    }

    /// A chunk of air without tiles at level `lod`, or at the coarsest level
    /// if `lod` lies beyond it.
    fn new(lod: usize) -> (r: ServerChunk)
        ensures
            r.level() == if lod <= MAX_LOD {
                lod
            } else {
                MAX_LOD
            },
            r.tile_map() == Map::<usize, u64>::empty(),
            r.next_id() == 0,
            forall|i: int| 0 <= i < r@.len() ==> r@[i].rotation == 0,
    {
        let lod: usize = if lod <= MAX_LOD {
            lod
        } else {
            MAX_LOD
        };
        proof {
            lemma_lod_table(lod as nat);
        }
        let n: usize = chunk_size(lod);
        let mut data: Vec<ServerBlockInfo> = Vec::new();
        let mut i: usize = 0;
        while i < n
            invariant
                i <= n,
                data@.len() == i,
                forall|k: int| 0 <= k < i ==> data@[k].block == Block::Air && data@[k].rotation == 0,
            decreases n - i,
        {
            data.push(ServerBlockInfo::default());
            i = i + 1;
        }
        ServerChunk { lod, data, tiles: HashMap::new(), mapping: HashMap::new(), next_tile: 0 }
    }

    fn lod_level(&self) -> (r: usize) {
        self.lod
    }

    fn size(&self) -> (r: usize) {
        proof {
            lemma_lod_table(self.lod as nat);
        }
        self.data.len()
    }

    fn block_at(&self, i: usize) -> (r: Block) {
        self.data[i].block
    }

    /// Writes the block, keeps the rotation, and brings the tile registry
    /// in line: a change of block destroys the cell's tile and, for a block
    /// that bears one, creates a new tile.
    fn put_block(&mut self, i: usize, block: Block) -> (r: Option<TileTransition>)
        ensures
            final(self)@ == old(self)@.update(
                i as int,
                (ServerBlockInfo { block, ..old(self)@[i as int] }),
            ),
            r == tile_transition(
                old(self)@[i as int].block,
                block,
                if old(self).tile_map().contains_key(i) {
                    Some(old(self).tile_map()[i])
                } else {
                    None
                },
                old(self).next_id(),
            ),
            final(self).next_id() == (match r {
                Some(TileTransition::Spawned(_)) => (old(self).next_id() + 1) as u64,
                Some(TileTransition::Replaced { old: _,
                    new: _ }) => (old(self).next_id() + 1) as u64,
                _ => old(self).next_id(),
            }),
            old(self)@[i as int].block == block ==> final(self).tile_map() == old(self).tile_map(),
            old(self)@[i as int].block != block ==> final(self).tile_map() == (match r {
                Some(TileTransition::Spawned(t)) => old(self).tile_map().insert(i, t),
                Some(TileTransition::Replaced { old: _, new }) => old(self).tile_map().insert(
                    i,
                    new,
                ),
                _ => old(self).tile_map().remove(i),
            }),
    {
        let before: Block = self.data[i].block;
        let mut info: ServerBlockInfo = self.data[i];
        info.block = block;
        self.data[i] = info;
        proof {
            assert(self.blocks() =~= old(self).blocks().update(i as int, block));
            lemma_registry_frame(old(self), self);
        }
        if before == block {
            return None;
        }
        let had: Option<u64> = self.despawn_tile(i);
        let made: Option<u64> = if block.has_tile() {
            self.spawn_tile(i)
        } else {
            None
        };
        proof {
            assert(old(self).tile_map().remove(i).insert(i,
                old(self).next_id()) =~= old(self).tile_map().insert(i, old(self).next_id()));
        }
        match (had, made) {
            (Some(t), Some(n)) => Some(TileTransition::Replaced { old: t, new: n }),
            (Some(t), None) => Some(TileTransition::Despawned(t)),
            (None, Some(n)) => Some(TileTransition::Spawned(n)),
            (None, None) => None,
        }
    }
}

} // verus!
