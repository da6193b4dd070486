use vstd::prelude::*;

use crate::world::direction::Direction;

verus! {

/// The kind of matter that fills one cell of the grid.
#[derive(Clone, Copy, Debug, PartialEq, Eq, Hash, Structural)]
pub enum Block {
    Air,
    Stone,
    Machine,
    Wire,
    Source,
}

/// Number of block kinds; every wire id is below it.
pub const BLOCK_KINDS: u16 = 5;

impl Block {
    /// The 16-bit id under which the block travels on the wire.
    pub open spec fn id(self) -> u16 {
        match self {
            Block::Air => 0,
            Block::Stone => 1,
            Block::Machine => 2,
            Block::Wire => 3,
            Block::Source => 4,
        }
    }

    /// The block with the given wire id; ids past the last kind map to `Air`.
    pub open spec fn of_id(id: u16) -> Block {
        if id == 1 {
            Block::Stone
        } else if id == 2 {
            Block::Machine
        } else if id == 3 {
            Block::Wire
        } else if id == 4 {
            Block::Source
        } else {
            Block::Air
        }
    }

    /// Whether the block hides what lies behind it: everything but `Air`.
    pub open spec fn opaque(self) -> bool {
        self != Block::Air
    }

    /// Whether a per-cell simulation entity accompanies the block.
    pub open spec fn bears_tile(self) -> bool {
        self == Block::Machine || self == Block::Wire || self == Block::Source
    }

    /// Name of the texture shown on the face `dir`, if the block has one.
    pub open spec fn texture(self, dir: Direction) -> Option<Seq<char>> {
        match (self, dir) {
            (Block::Stone, _) => Some("stone"@),
            (Block::Machine, Direction::Forward) => Some("machine_front"@),
            (Block::Machine, _) => Some("machine_side"@),
            (Block::Wire, _) => Some("wire"@),
            (Block::Source, _) => Some("source"@),
            (Block::Air, _) => None,
        }
    }

    pub fn texture_name(&self, dir: Direction) -> (name: Option<String>)
        ensures
            match name {
                Some(s) => self.texture(dir) == Some(s@),
                None => self.texture(dir).is_none(),
            },
    {
        match (*self, dir) {
            (Block::Stone, _) => Some("stone".to_owned()),
            (Block::Machine, Direction::Forward) => Some("machine_front".to_owned()),
            (Block::Machine, _) => Some("machine_side".to_owned()),
            (Block::Wire, _) => Some("wire".to_owned()),
            (Block::Source, _) => Some("source".to_owned()),
            (Block::Air, _) => None,
        }
    }

    /// Whether a height-map layer exists for the block's texture.
    pub fn parallax(&self) -> (r: bool)
        ensures
            r == (*self == Block::Stone),
    {
        match self {
            Block::Stone => true,
            _ => false,
        }
    }

    /// Whether a normal-map layer exists for the block's texture.
    pub fn normal(&self) -> (r: bool)
        ensures
            r == (*self == Block::Stone),
    {
        match self {
            Block::Stone => true,
            _ => false,
        }
    }

    pub fn is_opaque(&self) -> (r: bool)
        ensures
            r == self.opaque(),
    {
        !matches!(self, Block::Air)
    }

    /// Whether writing this block into a cell calls for a tile entity.
    pub fn has_tile(&self) -> (r: bool)
        ensures
            r == self.bears_tile(),
    {
        matches!(self, Block::Machine | Block::Wire | Block::Source)
    }

    /// The wire id of the block.
    pub fn to_id(self) -> (r: u16)
        ensures
            r == self.id(),
            r < BLOCK_KINDS,
    {
        match self {
            Block::Air => 0,
            Block::Stone => 1,
            Block::Machine => 2,
            Block::Wire => 3,
            Block::Source => 4,
        }
    }

    /// The block that a wire id stands for, or `None` for an unknown id.
    pub fn from_id(id: u16) -> (r: Option<Block>)
        ensures
            id < BLOCK_KINDS ==> r == Some(Block::of_id(id)),
            id >= BLOCK_KINDS ==> r.is_none(),
    {
        if id == 0 {
            Some(Block::Air)
        } else if id == 1 {
            Some(Block::Stone)
        } else if id == 2 {
            Some(Block::Machine)
        } else if id == 3 {
            Some(Block::Wire)
        } else if id == 4 {
            Some(Block::Source)
        } else {
            None
        }
    }
}

impl Default for Block {
    fn default() -> (r: Block)
        ensures
            r == Block::Air,
    {
        Block::Air
    }
}

/// A block's id is below the number of kinds and names the block again.
pub proof fn lemma_block_id_roundtrip(b: Block)
    ensures
        b.id() < BLOCK_KINDS,
        Block::of_id(b.id()) == b,
{
}

} // verus!
