use vstd::prelude::*;

use crate::util::bits::{bit_set, lemma_with_bit, test_bit, write_bit};
use crate::world::ambient::{calc_ambient_inside_chunk, inside_ambient};
use crate::world::chunk::{Chunk, ClientBlockInfo, ClientChunk};
use crate::world::client::lemma_derived_blocks;
use crate::world::direction::{lemma_direction_roundtrip, Direction};
use crate::world::position::LocalPosition;
use crate::world::structure::{
    axis_len, axis_of, cell_index, cell_inside, cell_of, chunk_axis, delinearize, index_cell,
    lemma_cell_index, lemma_index_cell, lemma_lod_table, linearize,
};
use crate::world::visibility::{
    calc_block_visible_mask_inside_chunk, inner_neighbor, open_inside, same_blocks, step,
};

verus! {

/// Whether the cell across the face `d` of the cell `i` lies in the chunk.
pub open spec fn inner_face(n: nat, i: int, d: Direction) -> bool {
    cell_inside(n, step(index_cell(n, i), d))
}

/// Whether a touched cell lies across one of the first `k` faces of the cell
/// `i`, inside the chunk.
pub open spec fn touched_across(touched: Seq<bool>, n: nat, i: int, k: nat) -> bool
    decreases k,
{
    if k == 0 {
        false
    } else {
        touched_across(touched, n, i, (k - 1) as nat) || {
            let d = Direction::of_index((k - 1) as nat);
            inner_face(n, i, d) && touched[cell_index(n, step(index_cell(n, i), d))]
        }
    }
}

/// Whether the cell `i` is derived anew: it was touched, or a touched cell
/// lies across one of its six faces, inside the chunk.
pub open spec fn stirred(touched: Seq<bool>, n: nat, i: int) -> bool {
    touched[i] || touched_across(touched, n, i, 6)
}

/// Whether the cell `i` lies on none of the chunk's six faces.
pub open spec fn enclosed(n: nat, i: int) -> bool {
    let c = index_cell(n, i);
    0 < c.0 < n - 1 && 0 < c.1 < n - 1 && 0 < c.2 < n - 1
}

/// Whether `now` is the entry `was` of the cell `i` derived anew from the
/// blocks of `cells`. The bit of a face whose other side lies in the chunk
/// says whether the block there lets one see through; the bit of a face on
/// the chunk's border, which the neighbouring chunk decides, is kept, and so
/// are the two spare bits. A cell on none of the chunk's faces gets the
/// brightness that the chunk's blocks give, or full brightness if none of
/// its faces shows; a cell on the border, whose brightness the neighbouring
/// chunks decide too, keeps its brightness.
pub open spec fn refreshed_cell(
    cells: Seq<ClientBlockInfo>,
    n: nat,
    i: int,
    was: ClientBlockInfo,
    now: ClientBlockInfo,
) -> bool {
    &&& now.block == was.block
    &&& forall|d: Direction|
        bit_set(now.visible_mask, #[trigger] d.index() as u8) == (if inner_face(n, i, d) {
            open_inside(cells, n, i, d)
        } else {
            bit_set(was.visible_mask, d.index() as u8)
        })
    &&& bit_set(now.visible_mask, 6) == bit_set(was.visible_mask, 6)
    &&& bit_set(now.visible_mask, 7) == bit_set(was.visible_mask, 7)
    &&& if enclosed(n, i) {
        forall|d: Direction|
            now.ambient[#[trigger] d.index() as int] == (if now.visible_mask & 63 == 0 {
                0xFFu8
            } else {
                inside_ambient(cells, n, index_cell(n, i), d)
            })
    } else {
        now.ambient == was.ambient
    }
}

/// Whether the cells `after` are the cells `before` with every stirred cell
/// derived anew and every other cell as it was.
pub open spec fn refreshed(
    before: Seq<ClientBlockInfo>,
    after: Seq<ClientBlockInfo>,
    n: nat,
    touched: Seq<bool>,
) -> bool {
    &&& after.len() == before.len()
    &&& forall|i: int|
        0 <= i < before.len() ==> (if stirred(touched, n, i) {
            refreshed_cell(after, n, i, before[i], #[trigger] after[i])
        } else {
            after[i] == before[i]
        })
}

/// Whether the cell `i` is stirred.
fn is_stirred(chunk: &ClientChunk, touched: &Vec<bool>, i: usize) -> (r: bool)
    requires
        chunk.wf(),
        touched@.len() == chunk@.len(),
        i < chunk@.len(),
    ensures
        r == stirred(touched@, axis_len(chunk.level()), i as int),
{
    let ghost n = axis_len(chunk.level());
    proof {
        lemma_lod_table(chunk.level());
        lemma_index_cell(n, i as int);
        assert(n * n * n <= 32768) by (nonlinear_arith)
            requires
                n <= 32,
        ;
    }
    let axis: LocalPosition = chunk_axis(chunk.lod);
    let position: LocalPosition = delinearize(axis, i);
    let mut found: bool = touched[i];
    let mut k: usize = 0;
    while k < 6
        invariant
            k <= 6,
            chunk.wf(),
            n == axis_len(chunk.level()),
            n <= 32,
            axis == axis_of(chunk.level()),
            axis.x == n,
            crate::world::structure::box_volume(axis) <= 32768,
            touched@.len() == chunk@.len(),
            i < chunk@.len(),
            cell_of(position) == index_cell(n, i as int),
            position.within(axis),
            found == (touched@[i as int] || touched_across(touched@, n, i as int, k as nat)),
        decreases 6 - k,
    {
        let dir: Direction = match Direction::from_index(k) {
            Some(d) => d,
            None => Direction::Left,
        };
        match inner_neighbor(position, axis, dir) {
            Some(q) => {
                proof {
                    lemma_cell_index(n, cell_of(q));
                }
                let j: usize = linearize(axis, q);
                if touched[j] {
                    found = true;
                }
            },
            None => {},
        }
        k = k + 1;
    }
    found
}

/// The visibility mask of the cell `i` derived anew: the bits of the faces
/// whose other side lies in the chunk are taken from the chunk's blocks,
/// every other bit from the mask `was`.
fn refreshed_mask(chunk: &ClientChunk, i: usize, was: u8) -> (mask: u8)
    requires
        chunk.wf(),
        i < chunk@.len(),
    ensures
        forall|d: Direction|
            bit_set(mask, #[trigger] d.index() as u8) == (if inner_face(
                axis_len(chunk.level()),
                i as int,
                d,
            ) {
                open_inside(chunk@, axis_len(chunk.level()), i as int, d)
            } else {
                bit_set(was, d.index() as u8)
            }),
        bit_set(mask, 6) == bit_set(was, 6),
        bit_set(mask, 7) == bit_set(was, 7),
{
    let ghost n = axis_len(chunk.level());
    proof {
        lemma_lod_table(chunk.level());
        lemma_index_cell(n, i as int);
        assert(n * n * n <= 32768) by (nonlinear_arith)
            requires
                n <= 32,
        ;
    }
    let inside: u8 = calc_block_visible_mask_inside_chunk(chunk, i);
    let axis: LocalPosition = chunk_axis(chunk.lod);
    let position: LocalPosition = delinearize(axis, i);
    let mut mask: u8 = was;
    let mut k: usize = 0;
    while k < 6
        invariant
            k <= 6,
            chunk.wf(),
            n == axis_len(chunk.level()),
            n <= 32,
            axis == axis_of(chunk.level()),
            axis.x == n,
            i < chunk@.len(),
            cell_of(position) == index_cell(n, i as int),
            position.within(axis),
            forall|d: Direction|
                bit_set(inside, #[trigger] d.index() as u8) == open_inside(chunk@, n, i as int, d),
            forall|j: u8|
                j < k ==> bit_set(mask, j) == (if inner_face(
                    n,
                    i as int,
                    #[trigger] Direction::of_index(j as nat),
                ) {
                    open_inside(chunk@, n, i as int, Direction::of_index(j as nat))
                } else {
                    bit_set(was, j)
                }),
            forall|j: u8| k <= j < 8 ==> bit_set(mask, j) == bit_set(was, j),
        decreases 6 - k,
    {
        let dir: Direction = match Direction::from_index(k) {
            Some(d) => d,
            None => Direction::Left,
        };
        let ghost before = mask;
        let open: bool = test_bit(inside, dir.bit());
        if inner_neighbor(position, axis, dir).is_some() {
            mask = write_bit(mask, dir.bit(), open);
        }
        proof {
            lemma_with_bit(before, k as u8, open);
            lemma_direction_roundtrip(dir);
            assert(open == open_inside(chunk@, n, i as int, dir));
        }
        k = k + 1;
    }
    proof {
        assert forall|d: Direction|
            bit_set(mask, #[trigger] d.index() as u8) == (if inner_face(n, i as int, d) {
                open_inside(chunk@, n, i as int, d)
            } else {
                bit_set(was, d.index() as u8)
            }) by {
            lemma_direction_roundtrip(d);
            let j = d.index() as u8;
            assert(Direction::of_index(j as nat) == d);
        }
    }
    mask
}

/// Whether the cell `i` lies on none of the chunk's six faces.
fn is_enclosed(chunk: &ClientChunk, i: usize) -> (r: bool)
    requires
        chunk.wf(),
        i < chunk@.len(),
    ensures
        r == enclosed(axis_len(chunk.level()), i as int),
{
    let ghost n = axis_len(chunk.level());
    proof {
        lemma_lod_table(chunk.level());
        lemma_index_cell(n, i as int);
        assert(n * n <= 1024 && n * n * n <= 32768) by (nonlinear_arith)
            requires
                n <= 32,
        ;
    }
    let axis: LocalPosition = chunk_axis(chunk.lod);
    let position: LocalPosition = delinearize(axis, i);
    position.x > 0 && position.x + 1 < axis.x && position.y > 0 && position.y + 1 < axis.y
        && position.z > 0 && position.z + 1 < axis.z
}

/// Derives anew what the chunk's own blocks decide, for the cells that were
/// touched and the cells next to them inside the chunk. `touched` says for
/// each cell whether its block changed.
pub fn refresh_cells(chunk: &mut ClientChunk, touched: &Vec<bool>)
    requires
        old(chunk).wf(),
        touched@.len() == old(chunk)@.len(),
    ensures
        final(chunk).wf(),
        final(chunk).same_frame(old(chunk)),
        refreshed(old(chunk)@, final(chunk)@, axis_len(old(chunk).level()), touched@),
{
    let ghost lod = chunk.level();
    let ghost n = axis_len(lod);
    let ghost start = chunk@;
    proof {
        lemma_lod_table(lod);
    }
    let size: usize = chunk.size();
    let mut i: usize = 0;
    while i < size
        invariant
            i <= size,
            size == chunk@.len(),
            size == n * n * n,
            n == axis_len(lod),
            n <= 32,
            lod == chunk.level(),
            chunk.wf(),
            chunk.same_frame(old(chunk)),
            start == old(chunk)@,
            touched@.len() == size,
            same_blocks(start, chunk@),
            forall|k: int|
                0 <= k < i ==> (if stirred(touched@, n, k) {
                    refreshed_cell(start, n, k, start[k], #[trigger] chunk@[k])
                } else {
                    chunk@[k] == start[k]
                }),
            forall|k: int| i <= k < size ==> #[trigger] chunk@[k] == start[k],
        decreases size - i,
    {
        if is_stirred(chunk, touched, i) {
            let was: ClientBlockInfo = *chunk.get(i);
            let visible_mask: u8 = refreshed_mask(chunk, i, was.visible_mask);
            let ambient: [u8; 6] = if !is_enclosed(chunk, i) {
                was.ambient
            } else if visible_mask & 63 == 0 {
                [0xFF, 0xFF, 0xFF, 0xFF, 0xFF, 0xFF]
            } else {
                calc_ambient_inside_chunk(chunk, i)
            };
            let mut info: ClientBlockInfo = was;
            info.visible_mask = visible_mask;
            info.ambient = ambient;
            proof {
                assert forall|d: Direction|
                    bit_set(info.visible_mask, #[trigger] d.index() as u8) == (if inner_face(
                        n,
                        i as int,
                        d,
                    ) {
                        open_inside(start, n, i as int, d)
                    } else {
                        bit_set(was.visible_mask, d.index() as u8)
                    }) by {
                    lemma_derived_blocks(start, chunk@, n, i as int, d);
                }
                if enclosed(n, i as int) {
                    assert forall|d: Direction|
                        info.ambient[#[trigger] d.index() as int] == (if info.visible_mask & 63
                            == 0 {
                            0xFFu8
                        } else {
                            inside_ambient(start, n, index_cell(n, i as int), d)
                        }) by {
                        lemma_derived_blocks(start, chunk@, n, i as int, d);
                    }
                }
                assert(refreshed_cell(start, n, i as int, start[i as int], info));
            }
            chunk.set(i, info);
        }
        i = i + 1;
    }
    proof {
        assert forall|k: int| 0 <= k < size implies (if stirred(touched@, n, k) {
            refreshed_cell(chunk@, n, k, start[k], #[trigger] chunk@[k])
        } else {
            chunk@[k] == start[k]
        }) by {
            if stirred(touched@, n, k) {
                assert(refreshed_cell(start, n, k, start[k], chunk@[k]));
                assert forall|d: Direction|
                    bit_set(chunk@[k].visible_mask, #[trigger] d.index() as u8) == (
                    if inner_face(n, k, d) {
                        open_inside(chunk@, n, k, d)
                    } else {
                        bit_set(start[k].visible_mask, d.index() as u8)
                    }) by {
                    lemma_derived_blocks(start, chunk@, n, k, d);
                }
                if enclosed(n, k) {
                    assert forall|d: Direction|
                        chunk@[k].ambient[#[trigger] d.index() as int] == (if chunk@[k].visible_mask
                            & 63 == 0 {
                            0xFFu8
                        } else {
                            inside_ambient(chunk@, n, index_cell(n, k), d)
                        }) by {
                        lemma_derived_blocks(start, chunk@, n, k, d);
                    }
                }
            }
        }
    }
}

} // verus!
