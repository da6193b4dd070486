use vstd::prelude::*;

use crate::util::bits::{bit_set, test_bit};
use crate::world::block::Block;
use crate::world::chunk::{Chunk, ClientBlockInfo, ClientChunk};
use crate::world::direction::Direction;
use crate::world::position::LocalPosition;
use crate::world::structure::{
    axis_len,
    cell_of,
    chunk_axis,
    chunk_lod,
    delinearize,
    index_cell,
    lemma_index_cell,
    lemma_lod_table,
    lod_scale,
};

verus! {

/// One corner of a face as the renderer takes it: four packed words.
#[derive(Clone, Copy, Debug, PartialEq, Eq)]
pub struct BlockVertex {
    pub data: [u32; 4],
}

/// The first word of a vertex: the low byte of each coordinate, x highest.
pub open spec fn packed_position(p: (int, int, int)) -> int {
    (p.0 % 256) * 65536 + (p.1 % 256) * 256 + p.2 % 256
}

/// The second word of a vertex: the two texture coordinates, each either
/// nothing or the whole of sixteen bits, the first one highest.
pub open spec fn packed_uv(u: bool, v: bool) -> int {
    (if u {
        65535int
    } else {
        0
    }) * 65536 + (if v {
        65535int
    } else {
        0
    })
}

/// The third word of a vertex: the direction in the highest byte, the low
/// twenty-four bits of the texture's number below it.
pub open spec fn packed_face(direction: u8, mapping: u32) -> int {
    direction * 16777216 + mapping % 16777216
}

/// The fourth word of a vertex: the four bytes of the tint, the first one
/// highest.
pub open spec fn packed_tint(tint: Seq<u8>) -> int {
    tint[0] * 16777216 + tint[1] * 65536 + tint[2] * 256 + tint[3]
}

impl BlockVertex {
    /// Packs a corner: its position, its texture coordinates, the direction
    /// of its face, the number of its texture and its tint.
    pub fn new(position: LocalPosition, uv: (bool, bool), direction: u8, mapping: u32,
        tint: [u8; 4]) -> (r: BlockVertex)
        ensures
            r.data[0] == packed_position(cell_of(position)),
            r.data[1] == packed_uv(uv.0, uv.1),
            r.data[2] == packed_face(direction, mapping),
            r.data[3] == packed_tint(tint@),
    {
        let x: u32 = ((position.x % 256) as u32) * 65536 + ((position.y % 256) as u32) * 256 + (
        position.z % 256) as u32;
        let u: u32 = if uv.0 {
            65535
        } else {
            0
        };
        let v: u32 = if uv.1 {
            65535
        } else {
            0
        };
        let y: u32 = u * 65536 + v;
        let z: u32 = (direction as u32) * 16777216 + mapping % 16777216;
        let w: u32 = (tint[0] as u32) * 16777216 + (tint[1] as u32) * 65536 + (tint[2] as u32) * 256
            + tint[3] as u32;
        BlockVertex { data: [x, y, z, w] }
    }
}

/// The brightness level, from 0 to 3, that a packed brightness holds for
/// the corner `vertex`.
pub open spec fn ambient_level(packed: u8, vertex: nat) -> int {
    (packed as int / vstd::arithmetic::power::pow(4, vertex)) % 4
}

/// The tint of a corner: the brightness level as a grey from black to
/// white in three steps, fully opaque.
pub open spec fn corner_tint(packed: u8, vertex: nat) -> Seq<u8> {
    let grey = (ambient_level(packed, vertex) * 85) as u8;
    seq![grey, grey, grey, 255u8]
}

/// The tint of the corner `vertex` of the face `dir`.
pub fn unpack_ambient(dir: Direction, vertex: usize, ambient: [u8; 6]) -> (r: [u8; 4])
    requires
        vertex < 4,
    ensures
        r@ == corner_tint(ambient[dir.index() as int], vertex as nat),
{
    let packed: u8 = ambient[dir.bit() as usize];
    proof {
        vstd::arithmetic::power::lemma_pow0(4);
        vstd::arithmetic::power::lemma_pow1(4);
        reveal_with_fuel(vstd::arithmetic::power::pow, 4);
        assert(vstd::arithmetic::power::pow(4, 2) == 16);
        assert(vstd::arithmetic::power::pow(4, 3) == 64);
    }
    let divisor: u8 = if vertex == 0 {
        1
    } else if vertex == 1 {
        4
    } else if vertex == 2 {
        16
    } else {
        64
    };
    let level: u8 = (packed / divisor) % 4;
    let grey: u8 = level * 85;
    let r: [u8; 4] = [grey, grey, grey, 255];
    assert(r@ =~= corner_tint(ambient[dir.index() as int], vertex as nat));
    r
}

/// Where the corner `k` of the face `d` stands in the unit cube.
pub open spec fn corner_offset(d: Direction, k: nat) -> (int, int, int) {
    let side: Seq<nat> = match d {
        Direction::Left => seq![4nat, 5, 1, 0],
        Direction::Right => seq![3nat, 2, 6, 7],
        Direction::Forward => seq![0nat, 3, 7, 4],
        Direction::Back => seq![5nat, 6, 2, 1],
        Direction::Up => seq![5nat, 4, 7, 6],
        Direction::Down => seq![0nat, 1, 2, 3],
    };
    let v = side[k as int];
    if v == 0 {
        (0, 0, 1)
    } else if v == 1 {
        (0, 1, 1)
    } else if v == 2 {
        (1, 1, 1)
    } else if v == 3 {
        (1, 0, 1)
    } else if v == 4 {
        (0, 0, 0)
    } else if v == 5 {
        (0, 1, 0)
    } else if v == 6 {
        (1, 1, 0)
    } else {
        (1, 0, 0)
    }
}

/// Which of the four brightness levels of the face `d` belongs to the
/// corner `k`.
pub open spec fn corner_ambient(d: Direction, k: nat) -> nat {
    let order: Seq<nat> = match d.flipped() {
        Direction::Back => seq![1nat, 2, 3, 0],
        Direction::Forward => seq![2nat, 1, 3, 0],
        Direction::Left => seq![1nat, 0, 3, 2],
        Direction::Right => seq![0nat, 1, 2, 3],
        Direction::Up => seq![2nat, 1, 0, 3],
        Direction::Down => seq![0nat, 3, 1, 2],
    };
    order[k as int]
}

/// The corner `k` of the face `d` of a block: it stands at the block's
/// position plus the corner's place in the unit cube, both times the scale;
/// its texture coordinates run round the face; its tint is the brightness
/// of its corner.
pub open spec fn face_vertex(
    info: ClientBlockInfo,
    scale: int,
    position: (int, int, int),
    d: Direction,
    k: nat,
    mapping: u32,
) -> Seq<int> {
    let o = corner_offset(d, k);
    seq![
        packed_position(
            (
                o.0 * scale + position.0 * scale,
                o.1 * scale + position.1 * scale,
                o.2 * scale + position.2 * scale,
            ),
        ),
        packed_uv(k == 2 || k == 3, k == 1 || k == 2),
        packed_face(d.index() as u8, mapping),
        packed_tint(corner_tint(info.ambient[d.index() as int], corner_ambient(d, k))),
    ]
}

/// How many of the first `k` faces of a cell show.
pub open spec fn shown_faces(mask: u8, k: nat) -> nat
    decreases k,
{
    if k == 0 {
        0
    } else {
        shown_faces(mask, (k - 1) as nat) + if bit_set(mask, (k - 1) as u8) {
            1nat
        } else {
            0nat
        }
    }
}

/// The six indices of a face whose corners start at `base`: two triangles.
pub open spec fn face_indices(base: int) -> Seq<int> {
    seq![base + 1, base, base + 3, base + 1, base + 3, base + 2]
}

/// Whether the vertices and indices from the places `v0` and `i0` on are the
/// faces that show of the first `k` faces of the block, in the order of the
/// directions.
pub open spec fn faces_written(
    vertices: Seq<BlockVertex>,
    indices: Seq<u32>,
    v0: int,
    i0: int,
    info: ClientBlockInfo,
    scale: int,
    position: (int, int, int),
    mapping: Seq<u32>,
    k: nat,
) -> bool {
    forall|j: nat|
        j < k && bit_set(info.visible_mask, j as u8) ==> {
            let f = #[trigger] shown_faces(info.visible_mask, j);
            let d = Direction::of_index(j);
            &&& forall|c: nat|
                c < 4 ==> (#[trigger] vertices[v0 + 4 * f + c]).data@.map_values(|w: u32| w as int)
                    == face_vertex(info, scale, position, d, c, mapping[j as int])
            &&& forall|m: int|
                0 <= m < 6 ==> (#[trigger] indices[i0 + 6 * f + m]) as int == face_indices(
                    v0 + 4 * f,
                )[m]
        }
}

fn corner_place(dir: Direction, k: usize) -> (r: (usize, usize, usize))
    requires
        k < 4,
    ensures
        (r.0 as int, r.1 as int, r.2 as int) == corner_offset(dir, k as nat),
        r.0 <= 1 && r.1 <= 1 && r.2 <= 1,
{
    let side: [usize; 4] = match dir {
        Direction::Left => [4, 5, 1, 0],
        Direction::Right => [3, 2, 6, 7],
        Direction::Forward => [0, 3, 7, 4],
        Direction::Back => [5, 6, 2, 1],
        Direction::Up => [5, 4, 7, 6],
        Direction::Down => [0, 1, 2, 3],
    };
    let v: usize = side[k];
    if v == 0 {
        (0, 0, 1)
    } else if v == 1 {
        (0, 1, 1)
    } else if v == 2 {
        (1, 1, 1)
    } else if v == 3 {
        (1, 0, 1)
    } else if v == 4 {
        (0, 0, 0)
    } else if v == 5 {
        (0, 1, 0)
    } else if v == 6 {
        (1, 1, 0)
    } else {
        (1, 0, 0)
    }
}

fn corner_level(dir: Direction, k: usize) -> (r: usize)
    requires
        k < 4,
    ensures
        r == corner_ambient(dir, k as nat),
        r < 4,
{
    let order: [usize; 4] = match dir.opposite() {
        Direction::Back => [1, 2, 3, 0],
        Direction::Forward => [2, 1, 3, 0],
        Direction::Left => [1, 0, 3, 2],
        Direction::Right => [0, 1, 2, 3],
        Direction::Up => [2, 1, 0, 3],
        Direction::Down => [0, 3, 1, 2],
    };
    order[k]
}

/// The corner `k` of the face `dir` of a block.
fn corner(info: &ClientBlockInfo, lod: usize, position: LocalPosition, dir: Direction, k: usize,
    mapping: u32) -> (r: BlockVertex)
    requires
        k < 4,
        (position.x + 1) * lod <= usize::MAX,
        (position.y + 1) * lod <= usize::MAX,
        (position.z + 1) * lod <= usize::MAX,
    ensures
        r.data@.map_values(|w: u32| w as int) == face_vertex(
            *info,
            lod as int,
            cell_of(position),
            dir,
            k as nat,
            mapping,
        ),
{
    let o: (usize, usize, usize) = corner_place(dir, k);
    proof {
        assert(o.0 * lod + position.x * lod <= (position.x + 1) * lod) by (nonlinear_arith)
            requires
                o.0 <= 1,
        ;
        assert(o.1 * lod + position.y * lod <= (position.y + 1) * lod) by (nonlinear_arith)
            requires
                o.1 <= 1,
        ;
        assert(o.2 * lod + position.z * lod <= (position.z + 1) * lod) by (nonlinear_arith)
            requires
                o.2 <= 1,
        ;
        assert(0 <= o.0 * lod && 0 <= position.x * lod && 0 <= o.1 * lod && 0 <= position.y * lod
            && 0 <= o.2 * lod && 0 <= position.z * lod) by (nonlinear_arith);
    }
    let at: LocalPosition = LocalPosition {
        x: o.0 * lod + position.x * lod,
        y: o.1 * lod + position.y * lod,
        z: o.2 * lod + position.z * lod,
    };
    let tint: [u8; 4] = unpack_ambient(dir, corner_level(dir, k), info.ambient);
    let r: BlockVertex = BlockVertex::new(at, (k == 2 || k == 3, k == 1
        || k == 2), dir.bit(), mapping, tint);
    proof {
        let want = face_vertex(*info, lod as int, cell_of(position), dir, k as nat, mapping);
        let got = r.data@.map_values(|w: u32| w as int);
        assert(got.len() == 4);
        assert(got[0] == want[0] && got[1] == want[1] && got[2] == want[2] && got[3] == want[3]);
        assert(got =~= want);
    }
    r
}

/// Appends the faces of a block that show: for each, in the order of the
/// directions, four corners and the six indices of its two triangles.
/// `mapping` holds the number of the block's texture for each direction.
pub fn cubic_block(
    info: &ClientBlockInfo,
    lod: usize,
    position: LocalPosition,
    mapping: &[u32; 6],
    block_vertices: &mut Vec<BlockVertex>,
    block_indices: &mut Vec<u32>,
)
    requires
        (position.x + 1) * lod <= usize::MAX,
        (position.y + 1) * lod <= usize::MAX,
        (position.z + 1) * lod <= usize::MAX,
        old(block_vertices)@.len() + 24 <= u32::MAX,
    ensures
        final(block_vertices)@.len() == old(block_vertices)@.len() + 4 * shown_faces(
            info.visible_mask,
            6,
        ),
        final(block_indices)@.len() == old(block_indices)@.len() + 6 * shown_faces(
            info.visible_mask,
            6,
        ),
        final(block_vertices)@.take(old(block_vertices)@.len() as int) == old(block_vertices)@,
        final(block_indices)@.take(old(block_indices)@.len() as int) == old(block_indices)@,
        faces_written(
            final(block_vertices)@,
            final(block_indices)@,
            old(block_vertices)@.len() as int,
            old(block_indices)@.len() as int,
            *info,
            lod as int,
            cell_of(position),
            mapping@,
            6,
        ),
        forall|m: int|
            old(block_indices)@.len() <= m < final(block_indices)@.len()
                ==> old(block_vertices)@.len()
                <= (#[trigger] final(block_indices)@[m]) < final(block_vertices)@.len(),
{
    let ghost v0 = block_vertices@.len() as int;
    let ghost i0 = block_indices@.len() as int;
    let mut k: usize = 0;
    while k < 6
        invariant
            k <= 6,
            (position.x + 1) * lod <= usize::MAX,
            (position.y + 1) * lod <= usize::MAX,
            (position.z + 1) * lod <= usize::MAX,
            v0 == old(block_vertices)@.len(),
            i0 == old(block_indices)@.len(),
            v0 + 24 <= u32::MAX,
            shown_faces(info.visible_mask, k as nat) <= k,
            block_vertices@.len() == v0 + 4 * shown_faces(info.visible_mask, k as nat),
            block_indices@.len() == i0 + 6 * shown_faces(info.visible_mask, k as nat),
            block_vertices@.take(v0) == old(block_vertices)@,
            block_indices@.take(i0) == old(block_indices)@,
            faces_written(
                block_vertices@,
                block_indices@,
                v0,
                i0,
                *info,
                lod as int,
                cell_of(position),
                mapping@,
                k as nat,
            ),
            forall|m: int|
                i0 <= m < block_indices@.len() ==> v0 <= (#[trigger] block_indices@[m])
                    < block_vertices@.len(),
        decreases 6 - k,
    {
        let dir: Direction = match Direction::from_index(k) {
            Some(d) => d,
            None => Direction::Left,
        };
        if test_bit(info.visible_mask, dir.bit()) {
            let ghost f = shown_faces(info.visible_mask, k as nat);
            let ghost vs = block_vertices@;
            let ghost is = block_indices@;
            let base: u32 = block_vertices.len() as u32;
            let texture: u32 = mapping[k];
            block_vertices.push(corner(info, lod, position, dir, 0, texture));
            block_vertices.push(corner(info, lod, position, dir, 1, texture));
            block_vertices.push(corner(info, lod, position, dir, 2, texture));
            block_vertices.push(corner(info, lod, position, dir, 3, texture));
            block_indices.push(base + 1);
            block_indices.push(base);
            block_indices.push(base + 3);
            block_indices.push(base + 1);
            block_indices.push(base + 3);
            block_indices.push(base + 2);
            proof {
                assert(block_vertices@.take(v0) =~= vs.take(v0));
                assert(block_indices@.take(i0) =~= is.take(i0));
                assert forall|j: nat|
                    j < k + 1 && bit_set(info.visible_mask, j as u8) implies ({
                    let g = #[trigger] shown_faces(info.visible_mask, j);
                    let d = Direction::of_index(j);
                    &&& forall|c: nat|
                        c < 4 ==> (#[trigger] block_vertices@[v0 + 4 * g + c]).data@.map_values(
                            |w: u32| w as int,
                        ) == face_vertex(*info, lod as int, cell_of(position), d, c,
                            mapping@[j as int])
                    &&& forall|m: int|
                        0 <= m < 6 ==> (#[trigger] block_indices@[i0 + 6 * g + m]) as int
                            == face_indices(v0 + 4 * g)[m]
                }) by {
                    let g = shown_faces(info.visible_mask, j);
                    if j < k {
                        lemma_shown_grows(info.visible_mask, j + 1, k as nat);
                        assert(shown_faces(info.visible_mask, j + 1) == g + 1);
                        assert(g < f);
                        assert forall|c: nat| c < 4 implies (#[trigger] block_vertices@[v0 + 4 * g
                            + c]) == vs[v0 + 4 * g + c] by {}
                        assert forall|m: int| 0 <= m < 6 implies (#[trigger] block_indices@[i0 + 6
                            * g + m]) == is[i0 + 6 * g + m] by {}
                    } else {
                        assert(g == f);
                    }
                }
            }
        }
        k = k + 1;
    }
}

/// The count of faces that show grows with the faces looked at.
pub proof fn lemma_shown_grows(mask: u8, a: nat, b: nat)
    requires
        a <= b,
    ensures
        shown_faces(mask, a) <= shown_faces(mask, b),
        shown_faces(mask, b) <= b,
    decreases b,
{
    if a < b {
        lemma_shown_grows(mask, a, (b - 1) as nat);
    } else if b > 0 {
        lemma_shown_grows(mask, (b - 1) as nat, (b - 1) as nat);
    }
}

/// How many faces the first `k` cells of a chunk show: the faces that show
/// of every cell that holds an opaque block.
pub open spec fn mesh_faces(cells: Seq<ClientBlockInfo>, k: nat) -> nat
    decreases k,
{
    if k == 0 {
        0
    } else {
        mesh_faces(cells, (k - 1) as nat) + if cells[k - 1].block.opaque() {
            shown_faces(cells[k - 1].visible_mask, 6)
        } else {
            0nat
        }
    }
}

/// The numbers of the textures of the six faces of `block` in a table that
/// holds one number per block and direction.
pub open spec fn texture_row(table: Seq<u32>, block: Block) -> Seq<u32> {
    Seq::new(6, |j: int| table[block.id() * 6 + j])
}

/// The count of faces grows with the cells looked at.
pub proof fn lemma_mesh_faces_grow(cells: Seq<ClientBlockInfo>, a: nat, b: nat)
    requires
        a <= b,
    ensures
        mesh_faces(cells, a) <= mesh_faces(cells, b),
    decreases b,
{
    if a < b {
        lemma_mesh_faces_grow(cells, a, (b - 1) as nat);
    }
}

/// The faces of a block stay written when vertices and indices are added
/// behind them.
proof fn lemma_faces_kept(
    vertices: Seq<BlockVertex>,
    indices: Seq<u32>,
    vertices2: Seq<BlockVertex>,
    indices2: Seq<u32>,
    v0: int,
    i0: int,
    info: ClientBlockInfo,
    scale: int,
    position: (int, int, int),
    mapping: Seq<u32>,
)
    requires
        faces_written(vertices, indices, v0, i0, info, scale, position, mapping, 6),
        0 <= v0,
        0 <= i0,
        v0 + 4 * shown_faces(info.visible_mask, 6) <= vertices.len() <= vertices2.len(),
        i0 + 6 * shown_faces(info.visible_mask, 6) <= indices.len() <= indices2.len(),
        vertices2.take(vertices.len() as int) == vertices,
        indices2.take(indices.len() as int) == indices,
    ensures
        faces_written(vertices2, indices2, v0, i0, info, scale, position, mapping, 6),
{
    assert forall|j: nat| j < 6 && bit_set(info.visible_mask, j as u8) implies ({
        let f = #[trigger] shown_faces(info.visible_mask, j);
        let d = Direction::of_index(j);
        &&& forall|c: nat|
            c < 4 ==> (#[trigger] vertices2[v0 + 4 * f + c]).data@.map_values(|w: u32| w as int)
                == face_vertex(info, scale, position, d, c, mapping[j as int])
        &&& forall|m: int|
            0 <= m < 6 ==> (#[trigger] indices2[i0 + 6 * f + m]) as int == face_indices(
                v0 + 4 * f,
            )[m]
    }) by {
        let f = shown_faces(info.visible_mask, j);
        lemma_shown_grows(info.visible_mask, j + 1, 6);
        assert(shown_faces(info.visible_mask, j + 1) == f + 1);
        assert forall|c: nat| c < 4 implies (#[trigger] vertices2[v0 + 4 * f + c])
            == vertices[v0 + 4 * f + c] by {
            assert(vertices2.take(vertices.len() as int)[v0 + 4 * f + c] == vertices2[v0 + 4 * f
                + c]);
        }
        assert forall|m: int| 0 <= m < 6 implies (#[trigger] indices2[i0 + 6 * f + m])
            == indices[i0 + 6 * f + m] by {
            assert(indices2.take(indices.len() as int)[i0 + 6 * f + m] == indices2[i0 + 6 * f + m]);
        }
    }
}

/// The mesh of a chunk: cell by cell, the faces that show of every opaque
/// block, each as four corners and six indices. `table` holds the number of
/// the texture for every block and direction, six numbers per block in the
/// order of the blocks' ids.
pub fn gen_block_mesh(s: &ClientChunk, table: &[u32; 30]) -> (r: (Vec<BlockVertex>, Vec<u32>))
    requires
        s.wf(),
    ensures
        r.0@.len() == 4 * mesh_faces(s@, s@.len()),
        r.1@.len() == 6 * mesh_faces(s@, s@.len()),
        forall|m: int| 0 <= m < r.1@.len() ==> (#[trigger] r.1@[m]) < r.0@.len(),
        forall|i: int|
            0 <= i < s@.len() && (#[trigger] s@[i]).block.opaque() ==> faces_written(
                r.0@,
                r.1@,
                (4 * mesh_faces(s@, i as nat)) as int,
                (6 * mesh_faces(s@, i as nat)) as int,
                s@[i],
                lod_scale(s.level()) as int,
                index_cell(axis_len(s.level()), i),
                texture_row(table@, s@[i].block),
                6,
            ),
{
    let mut block_vertices: Vec<BlockVertex> = Vec::new();
    let mut block_indices: Vec<u32> = Vec::new();
    proof {
        lemma_lod_table(s.level());
    }
    let size: usize = s.size();
    let axis: LocalPosition = chunk_axis(s.lod);
    let scale: usize = chunk_lod(s.lod);
    let mut i: usize = 0;
    while i < size
        invariant
            i <= size,
            s.wf(),
            size == s@.len(),
            size <= 32768,
            axis == crate::world::structure::axis_of(s.level()),
            axis.x == axis_len(s.level()),
            1 <= axis.x <= 32,
            scale == lod_scale(s.level()),
            scale <= 32,
            mesh_faces(s@, i as nat) <= 6 * i,
            block_vertices@.len() == (4 * mesh_faces(s@, i as nat)) as int,
            block_indices@.len() == (6 * mesh_faces(s@, i as nat)) as int,
            forall|m: int|
                0 <= m < block_indices@.len() ==> (#[trigger] block_indices@[m])
                    < block_vertices@.len(),
            forall|j: int|
                0 <= j < i && (#[trigger] s@[j]).block.opaque() ==> faces_written(
                    block_vertices@,
                    block_indices@,
                    (4 * mesh_faces(s@, j as nat)) as int,
                    (6 * mesh_faces(s@, j as nat)) as int,
                    s@[j],
                    scale as int,
                    index_cell(axis.x as nat, j),
                    texture_row(table@, s@[j].block),
                    6,
                ),
        decreases size - i,
    {
        let info: &ClientBlockInfo = s.get(i);
        proof {
            lemma_index_cell(axis.x as nat, i as int);
            assert(axis.x * axis.y <= 1024) by (nonlinear_arith)
                requires
                    axis.x <= 32,
                    axis.y <= 32,
            ;
            lemma_shown_grows(info.visible_mask, 6, 6);
        }
        let p: LocalPosition = delinearize(axis, i);
        if info.block.is_opaque() {
            let row: usize = info.block.to_id() as usize * 6;
            let mapping: [u32; 6] = [
                table[row],
                table[row + 1],
                table[row + 2],
                table[row + 3],
                table[row + 4],
                table[row + 5],
            ];
            proof {
                assert((p.x + 1) * scale <= 1024 && (p.y + 1) * scale <= 1024 && (p.z + 1) * scale
                    <= 1024) by (nonlinear_arith)
                    requires
                        p.x < 32,
                        p.y < 32,
                        p.z < 32,
                        scale <= 32,
                ;
            }
            let ghost before = block_indices@;
            let ghost vertices_before = block_vertices@;
            cubic_block(info, scale, p, &mapping, &mut block_vertices, &mut block_indices);
            proof {
                assert(mapping@ =~= texture_row(table@, info.block));
                assert forall|j: int|
                    0 <= j < i && (#[trigger] s@[j]).block.opaque() implies faces_written(
                    block_vertices@,
                    block_indices@,
                    (4 * mesh_faces(s@, j as nat)) as int,
                    (6 * mesh_faces(s@, j as nat)) as int,
                    s@[j],
                    scale as int,
                    index_cell(axis.x as nat, j),
                    texture_row(table@, s@[j].block),
                    6,
                ) by {
                    lemma_mesh_faces_grow(s@, (j + 1) as nat, i as nat);
                    lemma_faces_kept(
                        vertices_before,
                        before,
                        block_vertices@,
                        block_indices@,
                        (4 * mesh_faces(s@, j as nat)) as int,
                        (6 * mesh_faces(s@, j as nat)) as int,
                        s@[j],
                        scale as int,
                        index_cell(axis.x as nat, j),
                        texture_row(table@, s@[j].block),
                    );
                }
                assert forall|m: int| 0 <= m < block_indices@.len() implies (
                #[trigger] block_indices@[m]) < block_vertices@.len() by {
                    if m < before.len() {
                        assert(block_indices@.take(before.len() as int)[m] == block_indices@[m]);
                    }
                }
            }
        }
        i = i + 1;
    }
    (block_vertices, block_indices)
}

} // verus!
