use vstd::prelude::*;

use crate::world::chunk::{Chunk, ClientBlockInfo, ClientChunk};
use crate::world::direction::Direction;
use crate::world::position::{
    floor_div, floor_mod, toward_zero_div, trunc_div, ChunkPosition, LocalPosition, WorldPosition,
};
use crate::world::structure::{
    axis_len, cell_index, cell_inside, cell_of, chunk_axis, chunk_lod, delinearize, index_cell,
    lemma_cell_index, lemma_index_cell, lemma_lod_table, linearize, lod_scale, volume,
};
use crate::world::visibility::{
    face_cell,
    face_coord,
    face_done,
    face_position,
    face_u,
    face_v,
    inner_neighbor,
    lemma_cell_is_face_cell,
    lemma_face_cell,
    on_face,
    opaque_at,
    step,
};

verus! {

/// Per cell of a chunk, what a border pass found: nothing, or per face a
/// new occlusion value or nothing.
pub type PolyAmbientValues = Vec<Option<[Option<u8>; 6]>>;

/// The occlusion of a corner from the two cells beside it and the cell
/// diagonal to it: 0 when all three are free, 3 when both sides are taken.
pub open spec fn corner_level(side_a: bool, side_b: bool, corner: bool) -> int {
    (if side_a { 1int } else { 0 }) + (if side_b { 1int } else { 0 }) + (if corner || (side_a
        && side_b) {
        1int
    } else {
        0
    })
}

/// The sum of two sides and the larger of the corner and the sides' product.
pub fn vertex_ao(a: usize, b: usize, c: usize) -> (r: usize)
    requires
        a <= 1,
        b <= 1,
        c <= 1,
    ensures
        r == corner_level(a == 1, b == 1, c == 1),
        r <= 3,
{
    let both: usize = a * b;
    let third: usize = if c >= both {
        c
    } else {
        both
    };
    a + b + third
}

/// The sum of two triples.
pub open spec fn plus(a: (int, int, int), b: (int, int, int)) -> (int, int, int) {
    (a.0 + b.0, a.1 + b.1, a.2 + b.2)
}

/// The difference of two triples.
pub open spec fn minus(a: (int, int, int), b: (int, int, int)) -> (int, int, int) {
    (a.0 - b.0, a.1 - b.1, a.2 - b.2)
}

/// Where the `k`-th of the eight cells that shade the face `d` of a cell
/// lies, seen from the cell: the eight surround the cell across the face,
/// first the four beside it along the two in-face axes, then the four
/// diagonal to it.
#[verifier::opaque]
pub open spec fn ao_offset(d: Direction, k: int) -> (int, int, int) {
    let n = step((0, 0, 0), d);
    let d1 = (n.2, n.0, n.1);
    let d2 = (n.1, n.2, n.0);
    if k == 0 {
        plus(n, d1)
    } else if k == 1 {
        plus(n, d2)
    } else if k == 2 {
        minus(n, d1)
    } else if k == 3 {
        minus(n, d2)
    } else if k == 4 {
        plus(plus(n, d1), d2)
    } else if k == 5 {
        plus(minus(n, d1), d2)
    } else if k == 6 {
        minus(minus(n, d1), d2)
    } else {
        minus(plus(n, d1), d2)
    }
}

/// The occlusion of the four corners of a face from the eight samples
/// around it, numbered as `ao_offset` numbers them.
pub open spec fn corner_levels(s: Seq<bool>) -> Seq<int> {
    seq![
        corner_level(s[0], s[1], s[4]),
        corner_level(s[1], s[2], s[5]),
        corner_level(s[2], s[3], s[6]),
        corner_level(s[3], s[0], s[7]),
    ]
}

/// The packed brightness of a face: per corner two bits that hold three
/// minus the corner's occlusion, the first corner in the lowest bits.
#[verifier::opaque]
pub open spec fn ambient_value(s: Seq<bool>) -> u8 {
    let l = corner_levels(s);
    ((3 - l[0]) + (3 - l[1]) * 4 + (3 - l[2]) * 16 + (3 - l[3]) * 64) as u8
}

/// The occlusion of the four corners of a face from the eight samples
/// around it.
pub fn voxel_ao(samples: &[bool; 8]) -> (r: [u8; 4])
    ensures
        forall|k: int| 0 <= k < 4 ==> r[k] as int == corner_levels(samples@)[k],
        forall|k: int| 0 <= k < 4 ==> r[k] <= 3,
{
    let s0: usize = if samples[0] { 1 } else { 0 };
    let s1: usize = if samples[1] { 1 } else { 0 };
    let s2: usize = if samples[2] { 1 } else { 0 };
    let s3: usize = if samples[3] { 1 } else { 0 };
    let c0: usize = if samples[4] { 1 } else { 0 };
    let c1: usize = if samples[5] { 1 } else { 0 };
    let c2: usize = if samples[6] { 1 } else { 0 };
    let c3: usize = if samples[7] { 1 } else { 0 };
    [
        vertex_ao(s0, s1, c0) as u8,
        vertex_ao(s1, s2, c1) as u8,
        vertex_ao(s2, s3, c2) as u8,
        vertex_ao(s3, s0, c3) as u8,
    ]
}

/// The packed brightness of a face from the eight samples around it.
pub fn pack_ambient(samples: &[bool; 8]) -> (r: u8)
    ensures
        r == ambient_value(samples@),
{
    let l: [u8; 4] = voxel_ao(samples);
    proof {
        reveal(ambient_value);
    }
    (3 - l[0]) + (3 - l[1]) * 4 + (3 - l[2]) * 16 + (3 - l[3]) * 64
}

/// The eight offsets of `ao_offset` as machine integers.
pub fn sample_offsets(d: Direction) -> (r: [WorldPosition; 8])
    ensures
        forall|k: int|
            0 <= k < 8 ==> ((#[trigger] r[k]).x as int, r[k].y as int, r[k].z as int) == ao_offset(
                d,
                k,
            ),
        forall|k: int|
            0 <= k < 8 ==> -1 <= (#[trigger] r[k]).x <= 1 && -1 <= r[k].y <= 1 && -1 <= r[k].z
                <= 1,
{
    proof {
        reveal(ao_offset);
    }
    let (nx, ny, nz): (isize, isize, isize) = match d {
        Direction::Left => (-1, 0, 0),
        Direction::Right => (1, 0, 0),
        Direction::Forward => (0, -1, 0),
        Direction::Back => (0, 1, 0),
        Direction::Up => (0, 0, -1),
        Direction::Down => (0, 0, 1),
    };
    [
        WorldPosition { x: nx + nz, y: ny + nx, z: nz + ny },
        WorldPosition { x: nx + ny, y: ny + nz, z: nz + nx },
        WorldPosition { x: nx - nz, y: ny - nx, z: nz - ny },
        WorldPosition { x: nx - ny, y: ny - nz, z: nz - nx },
        WorldPosition { x: nx + nz + ny, y: ny + nx + nz, z: nz + ny + nx },
        WorldPosition { x: nx - nz + ny, y: ny - nx + nz, z: nz - ny + nx },
        WorldPosition { x: nx - nz - ny, y: ny - nx - nz, z: nz - ny - nx },
        WorldPosition { x: nx + nz - ny, y: ny + nx - nz, z: nz + ny - nx },
    ]
}

/// The eight samples that shade the face `d` of the cell `p`, taken from the
/// chunk's own cells: a cell outside the chunk counts as free.
pub open spec fn inside_samples(cells: Seq<ClientBlockInfo>, n: nat, p: (int, int, int),
    d: Direction) -> Seq<
    bool,
> {
    Seq::new(8, |k: int| opaque_at(cells, n, plus(p, ao_offset(d, k))))
}

/// The brightness of the face `d` of the cell `p` as far as the chunk
/// itself decides it: full where the cell across the face lies outside the
/// chunk, else what the chunk's own cells around the face take away.
#[verifier::opaque]
pub open spec fn inside_ambient(cells: Seq<ClientBlockInfo>, n: nat, p: (int, int, int),
    d: Direction) -> u8 {
    if cell_inside(n, step(p, d)) {
        ambient_value(inside_samples(cells, n, p, d))
    } else {
        0xFF
    }
}

/// Whether the cell at `(x, y, z)` lies in the chunk and is opaque.
fn sample_inside(s: &ClientChunk, x: isize, y: isize, z: isize) -> (r: bool)
    requires
        s.wf(),
    ensures
        r == opaque_at(s@, axis_len(s.level()), (x as int, y as int, z as int)),
{
    proof {
        lemma_lod_table(s.level());
    }
    let axis: LocalPosition = chunk_axis(s.lod);
    let n: usize = axis.x;
    if x < 0 || y < 0 || z < 0 || x >= n as isize || y >= n as isize || z >= n as isize {
        return false;
    }
    proof {
        lemma_cell_index(n as nat, (x as int, y as int, z as int));
        assert(n * n * n <= 32768) by (nonlinear_arith)
            requires
                n <= 32,
        ;
    }
    let i: usize = linearize(axis, LocalPosition { x: x as usize, y: y as usize, z: z as usize });
    s.get(i).block.is_opaque()
}

/// Whether the cell at `position` moved by `off` lies in the chunk and is
/// opaque.
fn sample_beside(s: &ClientChunk, position: LocalPosition, off: WorldPosition) -> (r: bool)
    requires
        s.wf(),
        position.x <= 32 && position.y <= 32 && position.z <= 32,
        -1 <= off.x <= 1 && -1 <= off.y <= 1 && -1 <= off.z <= 1,
    ensures
        r == opaque_at(
            s@,
            axis_len(s.level()),
            plus(cell_of(position), (off.x as int, off.y as int, off.z as int)),
        ),
{
    sample_inside(
        s,
        position.x as isize + off.x,
        position.y as isize + off.y,
        position.z as isize + off.z,
    )
}

fn inside_face_ambient(s: &ClientChunk, position: LocalPosition, dir: Direction) -> (r: u8)
    requires
        s.wf(),
        position.within(chunk_axis_spec(s)),
    ensures
        r == inside_ambient(s@, axis_len(s.level()), cell_of(position), dir),
{
    proof {
        lemma_lod_table(s.level());
    }
    let axis: LocalPosition = chunk_axis(s.lod);
    proof {
        reveal(inside_ambient);
    }
    match inner_neighbor(position, axis, dir) {
        None => 0xFF,
        Some(_) => {
            let off: [WorldPosition; 8] = sample_offsets(dir);
            let samples: [bool; 8] = [
                sample_beside(s, position, off[0]),
                sample_beside(s, position, off[1]),
                sample_beside(s, position, off[2]),
                sample_beside(s, position, off[3]),
                sample_beside(s, position, off[4]),
                sample_beside(s, position, off[5]),
                sample_beside(s, position, off[6]),
                sample_beside(s, position, off[7]),
            ];
            proof {
                let want = inside_samples(s@, axis_len(s.level()), cell_of(position), dir);
                assert forall|k: int| 0 <= k < 8 implies samples@[k] == want[k] by {
                    assert((off[k].x as int, off[k].y as int, off[k].z as int) == ao_offset(dir,
                        k));
                }
                assert(samples@ =~= want);
            }
            pack_ambient(&samples)
        },
    }
}

/// The extent of the chunk `s`.
pub open spec fn chunk_axis_spec(s: &ClientChunk) -> LocalPosition {
    crate::world::structure::axis_of(s.level())
}

/// The brightness of the six faces of the cell `i` as far as the chunk
/// itself decides it.
pub fn calc_ambient_inside_chunk(s: &ClientChunk, i: usize) -> (r: [u8; 6])
    requires
        s.wf(),
        i < s@.len(),
    ensures
        forall|d: Direction|
            r[#[trigger] d.index() as int] == inside_ambient(
                s@,
                axis_len(s.level()),
                index_cell(axis_len(s.level()), i as int),
                d,
            ),
{
    proof {
        lemma_lod_table(s.level());
        lemma_index_cell(axis_len(s.level()), i as int);
        assert(axis_len(s.level()) * axis_len(s.level()) <= 1024) by (nonlinear_arith)
            requires
                axis_len(s.level()) <= 32,
        ;
    }
    let axis: LocalPosition = chunk_axis(s.lod);
    let position: LocalPosition = delinearize(axis, i);
    let a0: u8 = inside_face_ambient(s, position, Direction::Left);
    let a1: u8 = inside_face_ambient(s, position, Direction::Right);
    let a2: u8 = inside_face_ambient(s, position, Direction::Forward);
    let a3: u8 = inside_face_ambient(s, position, Direction::Back);
    let a4: u8 = inside_face_ambient(s, position, Direction::Up);
    let a5: u8 = inside_face_ambient(s, position, Direction::Down);
    let r: [u8; 6] = [a0, a1, a2, a3, a4, a5];
    proof {
        assert forall|d: Direction|
            r[#[trigger] d.index() as int] == inside_ambient(
                s@,
                axis_len(s.level()),
                index_cell(axis_len(s.level()), i as int),
                d,
            ) by {
            match d {
                Direction::Left => {},
                Direction::Right => {},
                Direction::Forward => {},
                Direction::Back => {},
                Direction::Up => {},
                Direction::Down => {},
            }
        }
    }
    r
}

/// Where, in a block of three by three by three chunks whose first chunk
/// is at `min`, the chunk that holds the world cell `q` stands.
pub open spec fn hood_slot(min: ChunkPosition, q: (int, int, int)) -> int {
    ((q.2 / 32 - min.z) * 3 + (q.1 / 32 - min.y)) * 3 + (q.0 / 32 - min.x)
}

/// Whether the world cell `q` lies in the block of chunks that starts at
/// `min`.
pub open spec fn in_hood(min: ChunkPosition, q: (int, int, int)) -> bool {
    &&& min.x <= q.0 / 32 <= min.x + 2
    &&& min.y <= q.1 / 32 <= min.y + 2
    &&& min.z <= q.2 / 32 <= min.z + 2
}

/// Whether the world cell `q` is opaque in the block of chunks `hood`. The
/// cell is looked up in the chunk that holds it, at that chunk's level: each
/// coordinate is divided by the level's scale, rounding towards zero, and
/// then taken modulo the chunk's edge.
#[verifier::opaque]
pub open spec fn hood_opaque(hood: Seq<&ClientChunk>, min: ChunkPosition, q: (int, int,
    int)) -> bool {
    let c = hood[hood_slot(min, q)];
    let s = lod_scale(c.level()) as int;
    let n = axis_len(c.level());
    c@[cell_index(
        n,
        (trunc_div(q.0, s) % (n as int), trunc_div(q.1, s) % (n as int), trunc_div(q.2, s) % (
        n as int)),
    )].block.opaque()
}

/// The eight samples that shade the face `d` of the world cell `q`, taken
/// from the block of chunks `hood`.
pub open spec fn hood_samples(hood: Seq<&ClientChunk>, min: ChunkPosition, q: (int, int, int),
    d: Direction) -> Seq<
    bool,
> {
    Seq::new(8, |k: int| hood_opaque(hood, min, plus(q, ao_offset(d, k))))
}

/// The world cell that the local cell `p` of the chunk at `target` is taken
/// for: the local coordinates, unscaled, from the chunk's full-detail origin.
pub open spec fn world_cell(target: ChunkPosition, p: (int, int, int)) -> (int, int, int) {
    (p.0 + target.x * 32, p.1 + target.y * 32, p.2 + target.z * 32)
}

/// The chunk position one below `target` on every axis.
pub open spec fn hood_min(target: ChunkPosition) -> ChunkPosition {
    ChunkPosition {
        x: (target.x - 1) as isize,
        y: (target.y - 1) as isize,
        z: (target.z - 1) as isize,
    }
}

/// Whether the cells of the chunk at `target` and of its neighbours have
/// world coordinates that the machine can hold.
pub open spec fn hood_reach(target: ChunkPosition) -> bool {
    &&& isize::MIN <= (target.x - 2) * 32 && (target.x + 2) * 32 <= isize::MAX
    &&& isize::MIN <= (target.y - 2) * 32 && (target.y + 2) * 32 <= isize::MAX
    &&& isize::MIN <= (target.z - 2) * 32 && (target.z + 2) * 32 <= isize::MAX
}

/// Whether `hood` is a block of twenty-seven well-formed chunks.
pub open spec fn hood_wf(hood: Seq<&ClientChunk>) -> bool {
    hood.len() == 27 && forall|k: int| 0 <= k < 27 ==> (#[trigger] hood[k]).wf()
}

/// What a border pass over the face `d` of the chunk in the middle of
/// `hood`, which stands at `target`, has to say of the cell `i`: nothing
/// off the face and nothing for a cell none of whose faces shows; else a
/// new brightness for each of the six faces, taken from the block of chunks.
#[verifier::opaque]
pub open spec fn border_values(
    hood: Seq<&ClientChunk>,
    target: ChunkPosition,
    d: Direction,
    i: int,
    got: Option<[Option<u8>; 6]>,
) -> bool {
    let t = hood[13];
    let n = axis_len(t.level());
    let p = index_cell(n, i);
    if on_face(n, p, d) && t@[i].visible_mask & 63 != 0 {
        match got {
            Some(values) => forall|e: Direction|
                values[#[trigger] e.index() as int] == Some(
                    ambient_value(hood_samples(hood, hood_min(target), world_cell(target, p), e)),
                ),
            None => false,
        }
    } else {
        got.is_none()
    }
}

/// Whether the world cell `(x, y, z)` is opaque in the block of chunks.
fn hood_sample(chunk_refs: &[&ClientChunk], min: ChunkPosition, x: isize, y: isize,
    z: isize) -> (r: bool)
    requires
        hood_wf(chunk_refs@),
        in_hood(min, (x as int, y as int, z as int)),
    ensures
        r == hood_opaque(chunk_refs@, min, (x as int, y as int, z as int)),
{
    proof {
        reveal(hood_opaque);
    }
    let dx: usize = (floor_div(x, 32) - min.x) as usize;
    let dy: usize = (floor_div(y, 32) - min.y) as usize;
    let dz: usize = (floor_div(z, 32) - min.z) as usize;
    let slot: usize = (dz * 3 + dy) * 3 + dx;
    let chunk: &ClientChunk = chunk_refs[slot];
    assert(chunk == chunk_refs@[hood_slot(min, (x as int, y as int, z as int))]);
    proof {
        lemma_lod_table(chunk.level());
    }
    let s: isize = chunk_lod(chunk.lod) as isize;
    let axis: LocalPosition = chunk_axis(chunk.lod);
    let n: isize = axis.x as isize;
    let local: LocalPosition = LocalPosition {
        x: floor_mod(toward_zero_div(x, s), n),
        y: floor_mod(toward_zero_div(y, s), n),
        z: floor_mod(toward_zero_div(z, s), n),
    };
    proof {
        lemma_cell_index(n as nat, cell_of(local));
        assert(n * n * n <= 32768) by (nonlinear_arith)
            requires
                0 <= n <= 32,
        ;
    }
    let i: usize = linearize(axis, local);
    chunk.get(i).block.is_opaque()
}

/// A cell of the chunk at `target`, moved by at most one along each axis,
/// lies in the block of chunks around `target`.
proof fn lemma_in_hood(target: ChunkPosition, x: int, y: int, z: int, ox: int, oy: int, oz: int)
    requires
        hood_reach(target),
        target.x * 32 <= x < target.x * 32 + 32,
        target.y * 32 <= y < target.y * 32 + 32,
        target.z * 32 <= z < target.z * 32 + 32,
        -1 <= ox <= 1 && -1 <= oy <= 1 && -1 <= oz <= 1,
    ensures
        in_hood(hood_min(target), (x + ox, y + oy, z + oz)),
        isize::MIN <= x + ox <= isize::MAX,
        isize::MIN <= y + oy <= isize::MAX,
        isize::MIN <= z + oz <= isize::MAX,
{
    lemma_near(target.x as int, x + ox);
    lemma_near(target.y as int, y + oy);
    lemma_near(target.z as int, z + oz);
}

proof fn lemma_near(t: int, x: int)
    requires
        t * 32 - 1 <= x <= t * 32 + 32,
    ensures
        t - 1 <= x / 32 <= t + 1,
{
}

/// Whether two blocks of chunks hold, chunk by chunk, the same level and
/// the same blocks.
pub open spec fn same_hood_blocks(a: Seq<&ClientChunk>, b: Seq<&ClientChunk>) -> bool {
    &&& a.len() == 27
    &&& b.len() == 27
    &&& forall|k: int|
        0 <= k < 27 ==> (#[trigger] a[k]).level() == b[k].level() && a[k]@.len() == b[k]@.len()
            && forall|i: int| 0 <= i < a[k]@.len() ==> (#[trigger] a[k]@[i]).block == b[k]@[i].block
}

/// What shades a cell of the chunk in the middle of a block of chunks
/// depends only on the levels and the blocks of the chunks.
pub proof fn lemma_hood_samples_blocks(
    a: Seq<&ClientChunk>,
    b: Seq<&ClientChunk>,
    target: ChunkPosition,
    p: (int, int, int),
    e: Direction,
)
    requires
        hood_wf(a),
        same_hood_blocks(a, b),
        hood_reach(target),
        0 <= p.0 < 32 && 0 <= p.1 < 32 && 0 <= p.2 < 32,
    ensures
        hood_samples(a, hood_min(target), world_cell(target, p), e) == hood_samples(
            b,
            hood_min(target),
            world_cell(target, p),
            e,
        ),
{
    let q = world_cell(target, p);
    let sa = hood_samples(a, hood_min(target), q, e);
    let sb = hood_samples(b, hood_min(target), q, e);
    assert(sa =~= sb) by {
        assert forall|k: int| 0 <= k < 8 implies sa[k] == sb[k] by {
            lemma_offset_small(e, k);
            let off = ao_offset(e, k);
            lemma_in_hood(target, q.0, q.1, q.2, off.0, off.1, off.2);
            lemma_hood_opaque_blocks(a, b, hood_min(target), plus(q, off));
        }
    }
}

/// Every offset of a shading cell is at most one along each axis.
proof fn lemma_offset_small(e: Direction, k: int)
    ensures
        -1 <= ao_offset(e, k).0 <= 1,
        -1 <= ao_offset(e, k).1 <= 1,
        -1 <= ao_offset(e, k).2 <= 1,
{
    reveal(ao_offset);
}

/// Whether a world cell in a block of chunks is opaque depends only on the
/// levels and the blocks of the chunks.
proof fn lemma_hood_opaque_blocks(a: Seq<&ClientChunk>, b: Seq<&ClientChunk>, min: ChunkPosition,
    c: (int, int, int))
    requires
        hood_wf(a),
        same_hood_blocks(a, b),
        in_hood(min, c),
    ensures
        hood_opaque(a, min, c) == hood_opaque(b, min, c),
{
    reveal(hood_opaque);
    let slot = hood_slot(min, c);
    assert(0 <= slot < 27);
    let chunk = a[slot];
    assert(chunk.wf());
    lemma_lod_table(chunk.level());
    let s = lod_scale(chunk.level()) as int;
    let n = axis_len(chunk.level());
    let l = (trunc_div(c.0, s) % (n as int), trunc_div(c.1, s) % (n as int), trunc_div(c.2, s) % (
    n as int));
    lemma_cell_index(n, l);
    assert(chunk@.len() == n * n * n);
    assert(chunk@[cell_index(n, l)].block == b[slot]@[cell_index(n, l)].block);
}

/// Whether the world cell at `(x, y, z)`, a cell of the chunk at `target`,
/// moved by `off`, is opaque in the block of chunks around `target`.
fn hood_sample_beside(
    chunk_refs: &[&ClientChunk],
    target: ChunkPosition,
    x: isize,
    y: isize,
    z: isize,
    off: WorldPosition,
) -> (r: bool)
    requires
        hood_wf(chunk_refs@),
        hood_reach(target),
        -1 <= off.x <= 1 && -1 <= off.y <= 1 && -1 <= off.z <= 1,
        target.x * 32 <= x < target.x * 32 + 32,
        target.y * 32 <= y < target.y * 32 + 32,
        target.z * 32 <= z < target.z * 32 + 32,
    ensures
        r == hood_opaque(
            chunk_refs@,
            hood_min(target),
            plus((x as int, y as int, z as int), (off.x as int, off.y as int, off.z as int)),
        ),
{
    proof {
        lemma_in_hood(
            target,
            x as int,
            y as int,
            z as int,
            off.x as int,
            off.y as int,
            off.z as int,
        );
    }
    let min: ChunkPosition = ChunkPosition { x: target.x - 1, y: target.y - 1, z: target.z - 1 };
    hood_sample(chunk_refs, min, x + off.x, y + off.y, z + off.z)
}

/// The brightness of the face `e` of the world cell `(x, y, z)`, a cell of
/// the chunk in the middle of the block.
fn hood_face_ambient(
    chunk_refs: &[&ClientChunk],
    target: ChunkPosition,
    x: isize,
    y: isize,
    z: isize,
    e: Direction,
) -> (r: u8)
    requires
        hood_wf(chunk_refs@),
        hood_reach(target),
        target.x * 32 <= x < target.x * 32 + 32,
        target.y * 32 <= y < target.y * 32 + 32,
        target.z * 32 <= z < target.z * 32 + 32,
    ensures
        r == ambient_value(
            hood_samples(chunk_refs@, hood_min(target), (x as int, y as int, z as int), e),
        ),
{
    let off: [WorldPosition; 8] = sample_offsets(e);
    let samples: [bool; 8] = [
        hood_sample_beside(chunk_refs, target, x, y, z, off[0]),
        hood_sample_beside(chunk_refs, target, x, y, z, off[1]),
        hood_sample_beside(chunk_refs, target, x, y, z, off[2]),
        hood_sample_beside(chunk_refs, target, x, y, z, off[3]),
        hood_sample_beside(chunk_refs, target, x, y, z, off[4]),
        hood_sample_beside(chunk_refs, target, x, y, z, off[5]),
        hood_sample_beside(chunk_refs, target, x, y, z, off[6]),
        hood_sample_beside(chunk_refs, target, x, y, z, off[7]),
    ];
    proof {
        let want = hood_samples(chunk_refs@, hood_min(target), (x as int, y as int, z as int), e);
        assert forall|k: int| 0 <= k < 8 implies samples@[k] == want[k] by {
            assert((off[k].x as int, off[k].y as int, off[k].z as int) == ao_offset(e, k));
        }
        assert(samples@ =~= want);
    }
    pack_ambient(&samples)
}

/// What the border pass over the face `dir` has to say of the face cell at
/// `(u, v)`.
fn border_cell(
    chunk_refs: &[&ClientChunk],
    target: ChunkPosition,
    dir: Direction,
    u: usize,
    v: usize,
) -> (r: (usize, Option<[Option<u8>; 6]>))
    requires
        hood_wf(chunk_refs@),
        hood_reach(target),
        u < axis_len(chunk_refs@[13].level()),
        v < axis_len(chunk_refs@[13].level()),
    ensures
        r.0 == cell_index(
            axis_len(chunk_refs@[13].level()),
            face_cell(
                dir.axis(),
                face_coord(axis_len(chunk_refs@[13].level()), dir),
                u as int,
                v as int,
            ),
        ),
        border_values(chunk_refs@, target, dir, r.0 as int, r.1),
{
    let target_chunk: &ClientChunk = chunk_refs[13];
    proof {
        lemma_lod_table(target_chunk.level());
        reveal(border_values);
    }
    let n: usize = chunk_axis(target_chunk.lod).x;
    let a: usize = dir.axis_index();
    let w: usize = if dir.is_positive() {
        n - 1
    } else {
        0
    };
    proof {
        lemma_face_cell(n as nat, a as nat, w as int, u as int, v as int);
        assert(n * n * n <= 32768) by (nonlinear_arith)
            requires
                n <= 32,
        ;
    }
    let position: LocalPosition = face_position(a, w, u, v);
    let idx: usize = linearize(LocalPosition { x: n, y: n, z: n }, position);
    if target_chunk.get(idx).visible_mask & 63 != 0 {
        let x: isize = position.x as isize + target.x * 32;
        let y: isize = position.y as isize + target.y * 32;
        let z: isize = position.z as isize + target.z * 32;
        let v0: u8 = hood_face_ambient(chunk_refs, target, x, y, z, Direction::Left);
        let v1: u8 = hood_face_ambient(chunk_refs, target, x, y, z, Direction::Right);
        let v2: u8 = hood_face_ambient(chunk_refs, target, x, y, z, Direction::Forward);
        let v3: u8 = hood_face_ambient(chunk_refs, target, x, y, z, Direction::Back);
        let v4: u8 = hood_face_ambient(chunk_refs, target, x, y, z, Direction::Up);
        let v5: u8 = hood_face_ambient(chunk_refs, target, x, y, z, Direction::Down);
        let values: [Option<u8>; 6] = [Some(v0), Some(v1), Some(v2), Some(v3), Some(v4), Some(v5)];
        proof {
            let p = index_cell(n as nat, idx as int);
            assert(world_cell(target, p) == (x as int, y as int, z as int));
            assert forall|e: Direction|
                values[#[trigger] e.index() as int] == Some(
                    ambient_value(
                        hood_samples(chunk_refs@, hood_min(target), world_cell(target, p), e),
                    ),
                ) by {
                match e {
                    Direction::Left => {},
                    Direction::Right => {},
                    Direction::Forward => {},
                    Direction::Back => {},
                    Direction::Up => {},
                    Direction::Down => {},
                }
            }
        }
        (idx, Some(values))
    } else {
        (idx, None)
    }
}

/// The border pass over one face of the chunk in the middle of a block of
/// three by three by three chunks, listed with x running fastest. For every
/// cell on the face `dir` that shows at least one face, the brightness of
/// all six faces is taken anew from the whole block, so that cells of the
/// neighbouring chunks shade it too. `dimension` and `normal` say again
/// which way `dir` points.
pub fn calc_ambient_between_chunk_neighbors(
    chunk_refs: &[&ClientChunk],
    target: ChunkPosition,
    dir: Direction,
    dimension: usize,
    normal: isize,
) -> (all: PolyAmbientValues)
    requires
        hood_wf(chunk_refs@),
        hood_reach(target),
        dimension == dir.axis(),
        normal == dir.sign(),
    ensures
        all@.len() == volume(chunk_refs@[13].level()),
        forall|i: int| 0 <= i < all@.len()
            ==> border_values(chunk_refs@, target, dir, i, #[trigger] all@[i]),
{
    let target_chunk: &ClientChunk = chunk_refs[13];
    let ghost lt = target_chunk.level();
    proof {
        lemma_lod_table(lt);
    }
    let n: usize = chunk_axis(target_chunk.lod).x;
    let total: usize = target_chunk.size();
    let mut all: PolyAmbientValues = Vec::new();
    let mut k: usize = 0;
    while k < total
        invariant
            k <= total,
            all@.len() == k,
            forall|i: int| 0 <= i < k ==> (#[trigger] all@[i]).is_none(),
        decreases total - k,
    {
        all.push(None);
        k = k + 1;
    }
    let a: usize = dimension;
    let w: usize = if dir.is_positive() {
        n - 1
    } else {
        0
    };
    proof {
        assert forall|up: int, vp: int| 0 <= up < n && 0 <= vp < n implies 0
            <= #[trigger] cell_index(n as nat, face_cell(a as nat, w as int, up,
                vp)) < n * n * n by {
            lemma_face_cell(n as nat, a as nat, w as int, up, vp);
        }
    }
    let mut u: usize = 0;
    while u < n
        invariant
            u <= n,
            n == axis_len(lt),
            1 <= n <= 32,
            lt <= 5,
            lt == target_chunk.level(),
            target_chunk == chunk_refs@[13],
            hood_wf(chunk_refs@),
            hood_reach(target),
            a == dir.axis(),
            a < 3,
            w == face_coord(n as nat, dir),
            w < n,
            all@.len() == n * n * n,
            target_chunk@.len() == n * n * n,
            forall|up: int, vp: int|
                0 <= up < n && 0 <= vp < n && up < u ==> border_values(
                    chunk_refs@,
                    target,
                    dir,
                    cell_index(n as nat, face_cell(a as nat, w as int, up, vp)),
                    all@[#[trigger] cell_index(n as nat, face_cell(a as nat, w as int, up, vp))],
                ),
            forall|up: int, vp: int|
                0 <= up < n && 0 <= vp < n && up >= u ==> all@[#[trigger] cell_index(
                    n as nat,
                    face_cell(a as nat, w as int, up, vp),
                )].is_none(),
            forall|i: int|
                0 <= i < all@.len() && !on_face(n as nat, index_cell(n as nat, i), dir) ==> (
                #[trigger] all@[i]).is_none(),
        decreases n - u,
    {
        let mut v: usize = 0;
        while v < n
            invariant
                u < n,
                v <= n,
                n == axis_len(lt),
                1 <= n <= 32,
                lt <= 5,
                lt == target_chunk.level(),
                target_chunk == chunk_refs@[13],
                hood_wf(chunk_refs@),
                hood_reach(target),
                a == dir.axis(),
                a < 3,
                w == face_coord(n as nat, dir),
                w < n,
                all@.len() == n * n * n,
                target_chunk@.len() == n * n * n,
                forall|up: int, vp: int|
                    0 <= up < n && 0 <= vp < n && face_done(up, vp, u as int, v as int)
                        ==> border_values(
                        chunk_refs@,
                        target,
                        dir,
                        cell_index(n as nat, face_cell(a as nat, w as int, up, vp)),
                        all@[#[trigger] cell_index(n as nat, face_cell(a as nat, w as int, up,
                            vp))],
                    ),
                forall|up: int, vp: int|
                    0 <= up < n && 0 <= vp < n && !face_done(up, vp, u as int, v as int)
                        ==> all@[#[trigger] cell_index(
                        n as nat,
                        face_cell(a as nat, w as int, up, vp),
                    )].is_none(),
                forall|i: int|
                    0 <= i < all@.len() && !on_face(n as nat, index_cell(n as nat, i), dir) ==> (
                    #[trigger] all@[i]).is_none(),
            decreases n - v,
        {
            let found: (usize, Option<[Option<u8>; 6]>) = border_cell(chunk_refs, target, dir, u,
                v);
            proof {
                lemma_face_cell(n as nat, a as nat, w as int, u as int, v as int);
            }
            all[found.0] = found.1;
            proof {
                let idx = found.0;
                assert forall|up: int, vp: int| 0 <= up < n && 0 <= vp < n implies 0
                    <= #[trigger] cell_index(n as nat, face_cell(a as nat, w as int, up, vp))
                    < n * n * n && ((up != u || vp != v) ==> cell_index(
                    n as nat,
                    face_cell(a as nat, w as int, up, vp),
                ) != idx) by {
                    lemma_face_cell(n as nat, a as nat, w as int, up, vp);
                }
            }
            v = v + 1;
        }
        u = u + 1;
    }
    proof {
        assert forall|i: int| 0 <= i < all@.len() implies border_values(
            chunk_refs@,
            target,
            dir,
            i,
            #[trigger] all@[i],
        ) by {
            let p = index_cell(n as nat, i);
            lemma_index_cell(n as nat, i);
            if on_face(n as nat, p, dir) {
                lemma_cell_is_face_cell(p, a as nat);
                let up = face_u(p, a as nat);
                let vp = face_v(p, a as nat);
                assert(0 <= up < n && 0 <= vp < n);
                assert(cell_index(n as nat, face_cell(a as nat, w as int, up, vp)) == i);
            } else {
                reveal(border_values);
            }
        }
    }
    all
}

/// The entry `info` with the brightness of every face for which `values`
/// holds one replaced by it.
pub open spec fn with_ambient(info: ClientBlockInfo, values: Option<[Option<u8>; 6]>,
    after: ClientBlockInfo) -> bool {
    &&& after.block == info.block
    &&& after.visible_mask == info.visible_mask
    &&& forall|j: int|
        0 <= j < 6 ==> #[trigger] after.ambient[j] == (match values {
            Some(v) => match v[j] {
                Some(value) => value,
                None => info.ambient[j],
            },
            None => info.ambient[j],
        })
}

/// Writes what a border pass found into the chunk: cell by cell, every
/// brightness that the pass holds replaces the chunk's; everything else
/// stays.
pub fn set_ambient_between_chunk_neighbors(all_ambient_values: PolyAmbientValues,
    target_chunk: &mut ClientChunk)
    requires
        all_ambient_values@.len() <= old(target_chunk)@.len(),
    ensures
        final(target_chunk)@.len() == old(target_chunk)@.len(),
        final(target_chunk).same_frame(old(target_chunk)),
        forall|i: int|
            0 <= i < all_ambient_values@.len() ==> with_ambient(
                old(target_chunk)@[i],
                all_ambient_values@[i],
                #[trigger] final(target_chunk)@[i],
            ),
        forall|i: int|
            all_ambient_values@.len() <= i < old(target_chunk)@.len()
                ==> #[trigger] final(target_chunk)@[i] == old(target_chunk)@[i],
{
    let mut i: usize = 0;
    while i < all_ambient_values.len()
        invariant
            i <= all_ambient_values@.len(),
            all_ambient_values@.len() <= old(target_chunk)@.len(),
            target_chunk@.len() == old(target_chunk)@.len(),
            target_chunk.same_frame(old(target_chunk)),
            forall|k: int|
                0 <= k < i ==> with_ambient(
                    old(target_chunk)@[k],
                    all_ambient_values@[k],
                    #[trigger] target_chunk@[k],
                ),
            forall|k: int|
                i <= k < old(target_chunk)@.len()
                    ==> #[trigger] target_chunk@[k] == old(target_chunk)@[k],
        decreases all_ambient_values@.len() - i,
    {
        let mut info: ClientBlockInfo = *target_chunk.get(i);
        let ghost start = info;
        match all_ambient_values[i] {
            Some(values) => {
                let a0: u8 = match values[0] { Some(v) => v, None => info.ambient[0] };
                let a1: u8 = match values[1] { Some(v) => v, None => info.ambient[1] };
                let a2: u8 = match values[2] { Some(v) => v, None => info.ambient[2] };
                let a3: u8 = match values[3] { Some(v) => v, None => info.ambient[3] };
                let a4: u8 = match values[4] { Some(v) => v, None => info.ambient[4] };
                let a5: u8 = match values[5] { Some(v) => v, None => info.ambient[5] };
                info.ambient = [a0, a1, a2, a3, a4, a5];
            },
            None => {},
        }
        assert(with_ambient(start, all_ambient_values@[i as int], info));
        target_chunk.set(i, info);
        i = i + 1;
    }
}

} // verus!
