use vstd::prelude::*;

use crate::world::block::Block;
use crate::world::direction::Direction;

verus! {

/// Pixels along the edge of one texture.
pub const TEX_SIZE: usize = 16;

/// Textures along the edge of the atlas.
pub const ATLAS_AXIS: usize = 16;

/// Which place of the texture atlas holds the texture of each face of each
/// block.
pub struct Atlas {
    /// Per block and direction the place of the texture, six entries per
    /// block in the order of the blocks' ids.
    pub mapping: Vec<Option<u32>>,
}

/// The place that the face `dir` of `block` gets when the faces with a
/// texture are numbered block by block and direction by direction: air has
/// no texture, and every other block's faces follow those of the blocks
/// before it.
pub open spec fn layout_place(block: Block, dir: Direction) -> Option<u32> {
    if block == Block::Air {
        None
    } else {
        Some(((block.id() - 1) * 6 + dir.index()) as u32)
    }
}

impl Atlas {
    /// There is an entry for every block and direction.
    pub open spec fn wf(&self) -> bool {
        self.mapping@.len() == 30
    }

    /// The place of the texture of the face `dir` of `block`.
    pub open spec fn place(&self, block: Block, dir: Direction) -> Option<u32> {
        self.mapping@[block.id() * 6 + dir.index()]
    }

    /// Numbers the faces that have a texture, in the order of the blocks and
    /// of the directions.
    pub fn load() -> (r: Atlas)
        ensures
            r.wf(),
            forall|block: Block, dir: Direction| #[trigger]
                r.place(block, dir) == layout_place(block, dir),
    {
        let blocks: [Block; 5] = [
            Block::Air,
            Block::Stone,
            Block::Machine,
            Block::Wire,
            Block::Source,
        ];
        let mut mapping: Vec<Option<u32>> = Vec::new();
        let mut cursor: u32 = 0;
        let mut b: usize = 0;
        while b < 5
            invariant
                b <= 5,
                forall|k: int| 0 <= k < 5 ==> (#[trigger] blocks[k]).id() == k,
                mapping@.len() == 6 * b,
                cursor == (if b == 0 {
                    0
                } else {
                    6 * (b - 1)
                }),
                forall|i: int, j: int|
                    0 <= i < b && 0 <= j < 6 ==> #[trigger] mapping@[i * 6 + j] == (if i == 0 {
                        None
                    } else {
                        Some(((i - 1) * 6 + j) as u32)
                    }),
            decreases 5 - b,
        {
            let block: Block = blocks[b];
            let mut d: usize = 0;
            while d < 6
                invariant
                    d <= 6,
                    b < 5,
                    block == blocks[b as int],
                    block.id() == b,
                    mapping@.len() == 6 * b + d,
                    cursor == (if b == 0 {
                        0
                    } else {
                        6 * (b - 1) + d
                    }),
                    forall|i: int, j: int|
                        0 <= i < b && 0 <= j < 6 ==> #[trigger] mapping@[i * 6 + j] == (if i == 0 {
                            None
                        } else {
                            Some(((i - 1) * 6 + j) as u32)
                        }),
                    forall|j: int|
                        0 <= j < d ==> #[trigger] mapping@[b * 6 + j] == (if b == 0 {
                            None
                        } else {
                            Some(((b - 1) * 6 + j) as u32)
                        }),
                decreases 6 - d,
            {
                let dir: Direction = match Direction::from_index(d) {
                    Some(dir) => dir,
                    None => Direction::Left,
                };
                match block.texture_name(dir) {
                    Some(_) => {
                        mapping.push(Some(cursor));
                        cursor = cursor + 1;
                    },
                    None => {
                        mapping.push(None);
                    },
                }
                d = d + 1;
            }
            proof {
                assert forall|i: int, j: int| 0 <= i < b + 1
                    && 0 <= j < 6 implies #[trigger] mapping@[i
                    * 6 + j] == (if i == 0 {
                    None
                } else {
                    Some(((i - 1) * 6 + j) as u32)
                }) by {
                    if i == b {
                        assert(mapping@[b * 6 + j] == mapping@[i * 6 + j]);
                    }
                }
            }
            b = b + 1;
        }
        let r = Atlas { mapping };
        proof {
            assert forall|block: Block, dir: Direction| #[trigger]
                r.place(block, dir) == layout_place(block, dir) by {
                let i = block.id() as int;
                let j = dir.index() as int;
                assert(r.mapping@[i * 6 + j] == (if i == 0 {
                    None::<u32>
                } else {
                    Some(((i - 1) * 6 + j) as u32)
                }));
            }
        }
        r
    }

    /// The place of the texture of the face `dir` of `block`, if the face
    /// has a texture.
    pub fn block_mapping(&self, block: Block, dir: Direction) -> (r: Option<u32>)
        requires
            self.wf(),
        ensures
            r == self.place(block, dir),
    {
        self.mapping[block.to_id() as usize * 6 + dir.bit() as usize]
    }

    /// The places as a table for meshing, with place 0 for a face without
    /// a texture.
    pub fn table(&self) -> (r: [u32; 30])
        requires
            self.wf(),
        ensures
            forall|k: int|
                0 <= k < 30 ==> #[trigger] r[k] == (match self.mapping@[k] {
                    Some(place) => place,
                    None => 0,
                }),
    {
        let mut r: [u32; 30] = [0;30];
        let mut k: usize = 0;
        while k < 30
            invariant
                k <= 30,
                self.wf(),
                forall|i: int|
                    0 <= i < k ==> #[trigger] r[i] == (match self.mapping@[i] {
                        Some(place) => place,
                        None => 0,
                    }),
            decreases 30 - k,
        {
            let place: u32 = match self.mapping[k] {
                Some(place) => place,
                None => 0,
            };
            r[k] = place;
            k = k + 1;
        }
        r
    }
}

/// Where the texture at a place of the atlas starts, in pixels: the places
/// fill the atlas row by row.
pub fn atlas_origin(place: u32) -> (r: (usize, usize))
    requires
        place < 256,
    ensures
        r.0 == (place % 16) * 16,
        r.1 == (place / 16) * 16,
{
    let x: usize = place as usize % ATLAS_AXIS;
    let y: usize = place as usize / ATLAS_AXIS;
    (x * TEX_SIZE, y * TEX_SIZE)
}

} // verus!
