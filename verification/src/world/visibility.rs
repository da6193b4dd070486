use vstd::prelude::*;

use crate::util::bits::{bit_set, lemma_with_bit, with_bit, write_bit};
use crate::world::chunk::{Chunk, ClientBlockInfo, ClientChunk};
use crate::world::direction::Direction;
use crate::world::position::{ChunkPosition, LocalPosition};
use crate::world::structure::{
    axis_len,
    axis_of,
    cell_index,
    cell_inside,
    cell_of,
    chunk_axis,
    delinearize,
    index_cell,
    lemma_cell_index,
    lemma_index_cell,
    lemma_lod_table,
    linearize,
    volume,
};

verus! {

/// The cell one step from `p` in the direction `d`.
pub open spec fn step(p: (int, int, int), d: Direction) -> (int, int, int) {
    match d {
        Direction::Left => (p.0 - 1, p.1, p.2),
        Direction::Right => (p.0 + 1, p.1, p.2),
        Direction::Forward => (p.0, p.1 - 1, p.2),
        Direction::Back => (p.0, p.1 + 1, p.2),
        Direction::Up => (p.0, p.1, p.2 - 1),
        Direction::Down => (p.0, p.1, p.2 + 1),
    }
}

/// A neighbouring position, the direction that leads to it, the axis of that
/// direction and the step along the axis.
#[derive(Clone, Copy, Debug, PartialEq, Eq)]
pub struct Neighbor {
    pub position: ChunkPosition,
    pub direction: Direction,
    pub dimension: usize,
    pub normal: isize,
}

/// The neighbour of `pos` in the direction `dir`.
pub open spec fn neighbor_of(pos: ChunkPosition, dir: Direction) -> Neighbor {
    let q = step((pos.x as int, pos.y as int, pos.z as int), dir);
    Neighbor {
        position: ChunkPosition { x: q.0 as isize, y: q.1 as isize, z: q.2 as isize },
        direction: dir,
        dimension: dir.axis() as usize,
        normal: dir.sign() as isize,
    }
}

/// The neighbour of `pos` in the direction `dir`, or `None` where that
/// position lies beyond the machine's range.
pub fn neighbor(pos: ChunkPosition, dir: Direction) -> (r: Option<Neighbor>)
    ensures
        match r {
            Some(n) => n == neighbor_of(pos, dir) && n.position.is_offset_of(
                pos,
                step((0, 0, 0), dir).0,
                step((0, 0, 0), dir).1,
                step((0, 0, 0), dir).2,
            ),
            None => ({
                let q = step((pos.x as int, pos.y as int, pos.z as int), dir);
                !(isize::MIN <= q.0 <= isize::MAX && isize::MIN <= q.1 <= isize::MAX && isize::MIN
                    <= q.2 <= isize::MAX)
            }),
        },
{
    let (dx, dy, dz, dimension, normal): (isize, isize, isize, usize, isize) = match dir {
        Direction::Left => (-1, 0, 0, 0, -1),
        Direction::Right => (1, 0, 0, 0, 1),
        Direction::Forward => (0, -1, 0, 1, -1),
        Direction::Back => (0, 1, 0, 1, 1),
        Direction::Up => (0, 0, -1, 2, -1),
        Direction::Down => (0, 0, 1, 2, 1),
    };
    match pos.offset(dx, dy, dz) {
        Some(position) => Some(Neighbor { position, direction: dir, dimension, normal }),
        None => None,
    }
}

/// The six neighbours of a position, in the order of the directions.
pub fn neighbors(pos: ChunkPosition) -> (r: [Neighbor; 6])
    requires
        isize::MIN < pos.x < isize::MAX,
        isize::MIN < pos.y < isize::MAX,
        isize::MIN < pos.z < isize::MAX,
    ensures
        forall|k: int| 0 <= k < 6 ==> r[k] == neighbor_of(pos, Direction::of_index(k as nat)),
{
    [
        Neighbor {
            position: ChunkPosition { x: pos.x - 1, y: pos.y, z: pos.z },
            direction: Direction::Left,
            dimension: 0,
            normal: -1,
        },
        Neighbor {
            position: ChunkPosition { x: pos.x + 1, y: pos.y, z: pos.z },
            direction: Direction::Right,
            dimension: 0,
            normal: 1,
        },
        Neighbor {
            position: ChunkPosition { x: pos.x, y: pos.y - 1, z: pos.z },
            direction: Direction::Forward,
            dimension: 1,
            normal: -1,
        },
        Neighbor {
            position: ChunkPosition { x: pos.x, y: pos.y + 1, z: pos.z },
            direction: Direction::Back,
            dimension: 1,
            normal: 1,
        },
        Neighbor {
            position: ChunkPosition { x: pos.x, y: pos.y, z: pos.z - 1 },
            direction: Direction::Up,
            dimension: 2,
            normal: -1,
        },
        Neighbor {
            position: ChunkPosition { x: pos.x, y: pos.y, z: pos.z + 1 },
            direction: Direction::Down,
            dimension: 2,
            normal: 1,
        },
    ]
}

/// Whether the triple `p` lies in the box with edges `axis`.
pub open spec fn within_box(axis: LocalPosition, p: (int, int, int)) -> bool {
    0 <= p.0 < axis.x && 0 <= p.1 < axis.y && 0 <= p.2 < axis.z
}

/// The neighbour of `pos` in the direction `dir` if it lies in the box with
/// edges `axis`.
pub fn inner_neighbor(pos: LocalPosition, axis: LocalPosition, dir: Direction) -> (r: Option<
    LocalPosition,
>)
    ensures
        match r {
            Some(q) => cell_of(q) == step(cell_of(pos), dir) && q.within(axis),
            None => !within_box(axis, step(cell_of(pos), dir)),
        },
{
    if pos.x >= axis.x || pos.y >= axis.y || pos.z >= axis.z {
        // A position outside the box has a neighbour inside only across the
        // face it lies just beyond.
        match dir {
            Direction::Left => if pos.x == axis.x && pos.x > 0 && pos.y < axis.y && pos.z < axis.z {
                Some(LocalPosition { x: pos.x - 1, y: pos.y, z: pos.z })
            } else {
                None
            },
            Direction::Forward => if pos.y == axis.y && pos.y > 0 && pos.x < axis.x && pos.z
                < axis.z {
                Some(LocalPosition { x: pos.x, y: pos.y - 1, z: pos.z })
            } else {
                None
            },
            Direction::Up => if pos.z == axis.z && pos.z > 0 && pos.x < axis.x && pos.y < axis.y {
                Some(LocalPosition { x: pos.x, y: pos.y, z: pos.z - 1 })
            } else {
                None
            },
            _ => None,
        }
    } else {
        match dir {
            Direction::Left => if pos.x > 0 {
                Some(LocalPosition { x: pos.x - 1, y: pos.y, z: pos.z })
            } else {
                None
            },
            Direction::Right => if pos.x + 1 < axis.x {
                Some(LocalPosition { x: pos.x + 1, y: pos.y, z: pos.z })
            } else {
                None
            },
            Direction::Forward => if pos.y > 0 {
                Some(LocalPosition { x: pos.x, y: pos.y - 1, z: pos.z })
            } else {
                None
            },
            Direction::Back => if pos.y + 1 < axis.y {
                Some(LocalPosition { x: pos.x, y: pos.y + 1, z: pos.z })
            } else {
                None
            },
            Direction::Up => if pos.z > 0 {
                Some(LocalPosition { x: pos.x, y: pos.y, z: pos.z - 1 })
            } else {
                None
            },
            Direction::Down => if pos.z + 1 < axis.z {
                Some(LocalPosition { x: pos.x, y: pos.y, z: pos.z + 1 })
            } else {
                None
            },
        }
    }
}

/// Whether the cell `p` lies in the cube of edge `n` and holds an opaque
/// block.
pub open spec fn opaque_at(cells: Seq<ClientBlockInfo>, n: nat, p: (int, int, int)) -> bool {
    cell_inside(n, p) && cells[cell_index(n, p)].block.opaque()
}

/// Whether the face `d` of the cell with flat index `i` is open as far as
/// the chunk itself can tell: the neighbour across it lies outside the chunk
/// or is not opaque.
pub open spec fn open_inside(cells: Seq<ClientBlockInfo>, n: nat, i: int, d: Direction) -> bool {
    !opaque_at(cells, n, step(index_cell(n, i), d))
}

/// The visibility mask of the cell `i` as far as the chunk itself decides
/// it: the bit of a face is cleared where the neighbour across the face lies
/// in the chunk and is opaque; every other bit, the two spare ones too, is
/// set.
pub fn calc_block_visible_mask_inside_chunk(s: &ClientChunk, i: usize) -> (mask: u8)
    requires
        s.wf(),
        i < s@.len(),
    ensures
        forall|d: Direction|
            bit_set(mask, #[trigger] d.index() as u8) == open_inside(
                s@,
                axis_len(s.level()),
                i as int,
                d,
            ),
        bit_set(mask, 6),
        bit_set(mask, 7),
{
    let ghost n = axis_len(s.level());
    proof {
        lemma_lod_table(s.level());
        lemma_index_cell(n, i as int);
        assert(n * n * n <= 32768) by (nonlinear_arith)
            requires
                n <= 32,
        ;
        assert(bit_set(0xFF, 0) && bit_set(0xFF, 1) && bit_set(0xFF, 2) && bit_set(0xFF, 3)
            && bit_set(0xFF, 4) && bit_set(0xFF, 5) && bit_set(0xFF, 6) && bit_set(0xFF, 7))
            by (bit_vector);
    }
    let axis: LocalPosition = chunk_axis(s.lod);
    let position: LocalPosition = delinearize(axis, i);
    let mut mask: u8 = 0xFF;
    let mut k: usize = 0;
    while k < 6
        invariant
            k <= 6,
            s.wf(),
            n == axis_len(s.level()),
            n <= 32,
            axis == axis_of(s.level()),
            axis.x == n,
            crate::world::structure::box_volume(axis) <= 32768,
            i < s@.len(),
            cell_of(position) == index_cell(n, i as int),
            position.within(axis),
            forall|j: u8| j < k ==> bit_set(mask, j) == open_inside(
                s@,
                n,
                i as int,
                #[trigger] Direction::of_index(j as nat),
            ),
            forall|j: u8| k <= j < 8 ==> bit_set(mask, j),
        decreases 6 - k,
    {
        let dir: Direction = match Direction::from_index(k) {
            Some(d) => d,
            None => Direction::Left,
        };
        let found: Option<LocalPosition> = inner_neighbor(position, axis, dir);
        let mut hidden: bool = false;
        match found {
            Some(q) => {
                proof {
                    lemma_cell_index(n, cell_of(q));
                }
                let j: usize = linearize(axis, q);
                hidden = s.get(j).block.is_opaque();
            },
            None => {},
        }
        let ghost before = mask;
        if hidden {
            mask = write_bit(mask, dir.bit(), false);
        }
        proof {
            lemma_with_bit(before, k as u8, false);
            assert(hidden == !open_inside(s@, n, i as int, dir));
        }
        k = k + 1;
    }
    proof {
        assert forall|d: Direction|
            bit_set(mask, #[trigger] d.index() as u8) == open_inside(s@, n, i as int, d) by {
            let j = d.index() as u8;
            assert(Direction::of_index(j as nat) == d);
        }
    }
    mask
}

/// The coordinate of `p` along the axis `a`.
pub open spec fn coord(p: (int, int, int), a: nat) -> int {
    if a == 0 {
        p.0
    } else if a == 1 {
        p.1
    } else {
        p.2
    }
}

/// The cell with coordinate `w` along the axis `a`, `u` along the axis after
/// it and `v` along the axis after that, the axes taken in a circle.
pub open spec fn face_cell(a: nat, w: int, u: int, v: int) -> (int, int, int) {
    if a == 0 {
        (w, u, v)
    } else if a == 1 {
        (v, w, u)
    } else {
        (u, v, w)
    }
}

/// The coordinate, along the axis of `d`, of the cells that lie on the face
/// `d` of a cube of edge `n`.
pub open spec fn face_coord(n: nat, d: Direction) -> int {
    if d.sign() == 1 {
        n - 1
    } else {
        0
    }
}

/// Whether the cell `p` lies on the face `d` of a cube of edge `n`.
pub open spec fn on_face(n: nat, p: (int, int, int), d: Direction) -> bool {
    coord(p, d.axis()) == face_coord(n, d)
}

/// The first in-face coordinate of `p` for a face across the axis `a`.
pub open spec fn face_u(p: (int, int, int), a: nat) -> int {
    coord(p, (a + 1) % 3)
}

/// The second in-face coordinate of `p` for a face across the axis `a`.
pub open spec fn face_v(p: (int, int, int), a: nat) -> int {
    coord(p, (a + 2) % 3)
}

/// Whether one of the first `count` cells of a square patch of a face holds a
/// block that is not opaque. The patch lies in a cube of edge `m` at
/// coordinate `w` along the axis `a`, starts at `(u0, v0)` and has `ratio`
/// cells along each edge, counted row by row.
pub open spec fn patch_open(
    y: Seq<ClientBlockInfo>,
    m: nat,
    a: nat,
    w: int,
    u0: int,
    v0: int,
    ratio: nat,
    count: nat,
) -> bool
    decreases count,
{
    if count == 0 || ratio == 0 {
        false
    } else {
        let j = (count - 1) as nat;
        patch_open(y, m, a, w, u0, v0, ratio, j) || !y[cell_index(
            m,
            face_cell(a, w, u0 + (j / ratio) as int, v0 + (j % ratio) as int),
        )].block.opaque()
    }
}

/// Whether the face `d` of the cell `p`, a cell on the face `d` of a chunk
/// at level `lx`, has something that is not opaque behind it in the
/// neighbouring chunk with cells `y` at level `ly`. A cell of the coarser
/// chunk faces a square patch of cells of the finer one and sees through if
/// any cell of the patch lets it; a cell of the finer chunk faces the one
/// coarse cell that covers it.
pub open spec fn sees_through(
    lx: nat,
    p: (int, int, int),
    y: Seq<ClientBlockInfo>,
    ly: nat,
    d: Direction,
) -> bool {
    let n = axis_len(lx);
    let m = axis_len(ly);
    let a = d.axis();
    let w = face_coord(m, d.flipped());
    let u = face_u(p, a);
    let v = face_v(p, a);
    if m >= n {
        let ratio = m / n;
        patch_open(y, m, a, w, u * ratio, v * ratio, ratio, ratio * ratio)
    } else {
        let ratio = (n / m) as int;
        !y[cell_index(m, face_cell(a, w, u / ratio, v / ratio))].block.opaque()
    }
}

/// The entry of the cell `i` of the chunk `x` once its face `d` has been
/// resolved against the neighbour `y`: on the face, the bit of `d` says
/// whether the cell sees through; everything else stays.
pub open spec fn resolved_info(
    x: Seq<ClientBlockInfo>,
    lx: nat,
    y: Seq<ClientBlockInfo>,
    ly: nat,
    d: Direction,
    i: int,
) -> ClientBlockInfo {
    let n = axis_len(lx);
    let p = index_cell(n, i);
    if on_face(n, p, d) {
        ClientBlockInfo {
            visible_mask: with_bit(
                x[i].visible_mask,
                d.index() as u8,
                sees_through(lx, p, y, ly, d),
            ),
            ..x[i]
        }
    } else {
        x[i]
    }
}

/// The cells of the chunk `x` once its face `d` has been resolved against
/// the neighbour `y`.
pub open spec fn resolved(
    x: Seq<ClientBlockInfo>,
    lx: nat,
    y: Seq<ClientBlockInfo>,
    ly: nat,
    d: Direction,
) -> Seq<ClientBlockInfo> {
    Seq::new(x.len(), |i: int| resolved_info(x, lx, y, ly, d, i))
}

/// Whether two sequences of cells hold the same blocks.
pub open spec fn same_blocks(a: Seq<ClientBlockInfo>, b: Seq<ClientBlockInfo>) -> bool {
    a.len() == b.len() && forall|i: int| 0 <= i < a.len() ==> a[i].block == b[i].block
}

/// Whether the in-face position `(up, vp)` comes before `(u, v)` row by row.
pub open spec fn face_done(up: int, vp: int, u: int, v: int) -> bool {
    up < u || (up == u && vp < v)
}

/// The edges of two levels that exist divide one another.
pub proof fn lemma_axis_ratio(lx: nat, ly: nat)
    requires
        lx <= 5,
        ly <= 5,
    ensures
        axis_len(ly) >= axis_len(lx) ==> (axis_len(ly) / axis_len(lx)) * axis_len(lx) == axis_len(
            ly,
        ) && axis_len(ly) / axis_len(lx) >= 1,
        axis_len(ly) < axis_len(lx) ==> (axis_len(lx) / axis_len(ly)) * axis_len(ly) == axis_len(
            lx,
        ) && axis_len(lx) / axis_len(ly) >= 2,
        1 <= axis_len(lx) <= 32,
        1 <= axis_len(ly) <= 32,
{
    lemma_lod_table(lx);
    lemma_lod_table(ly);
    let n = axis_len(lx);
    let m = axis_len(ly);
    assert(n == 1 || n == 2 || n == 4 || n == 8 || n == 16 || n == 32);
    assert(m == 1 || m == 2 || m == 4 || m == 8 || m == 16 || m == 32);
}

/// A face cell lies inside the cube, on its face, and its in-face
/// coordinates are the ones it was made from.
pub proof fn lemma_face_cell(n: nat, a: nat, w: int, u: int, v: int)
    requires
        a < 3,
        0 <= w < n,
        0 <= u < n,
        0 <= v < n,
        n <= 32,
    ensures
        cell_inside(n, face_cell(a, w, u, v)),
        coord(face_cell(a, w, u, v), a) == w,
        face_u(face_cell(a, w, u, v), a) == u,
        face_v(face_cell(a, w, u, v), a) == v,
        0 <= cell_index(n, face_cell(a, w, u, v)) < n * n * n,
        index_cell(n, cell_index(n, face_cell(a, w, u, v))) == face_cell(a, w, u, v),
{
    lemma_cell_index(n, face_cell(a, w, u, v));
}

/// A cell is the face cell of its own coordinates.
pub proof fn lemma_cell_is_face_cell(p: (int, int, int), a: nat)
    requires
        a < 3,
    ensures
        face_cell(a, coord(p, a), face_u(p, a), face_v(p, a)) == p,
{
}

/// What a cell sees through a face depends only on the blocks behind it.
pub proof fn lemma_sees_through_blocks(
    lx: nat,
    p: (int, int, int),
    y: Seq<ClientBlockInfo>,
    z: Seq<ClientBlockInfo>,
    ly: nat,
    d: Direction,
)
    requires
        lx <= 5,
        ly <= 5,
        y.len() == volume(ly),
        same_blocks(y, z),
        cell_inside(axis_len(lx), p),
    ensures
        sees_through(lx, p, y, ly, d) == sees_through(lx, p, z, ly, d),
{
    lemma_axis_ratio(lx, ly);
    let n = axis_len(lx);
    let m = axis_len(ly);
    let a = d.axis();
    let w = face_coord(m, d.flipped());
    let u = face_u(p, a);
    let v = face_v(p, a);
    if m >= n {
        let ratio = m / n;
        assert(0 <= u * ratio && u * ratio + ratio <= m) by (nonlinear_arith)
            requires
                0 <= u < n,
                ratio * n == m,
                ratio >= 1,
        ;
        assert(0 <= v * ratio && v * ratio + ratio <= m) by (nonlinear_arith)
            requires
                0 <= v < n,
                ratio * n == m,
                ratio >= 1,
        ;
        lemma_patch_open_blocks(y, z, m, a, w, u * ratio, v * ratio, ratio, ratio * ratio);
    } else {
        let ratio = (n / m) as int;
        vstd::arithmetic::div_mod::lemma_multiply_divide_lt(u, ratio, m as int);
        vstd::arithmetic::div_mod::lemma_multiply_divide_lt(v, ratio, m as int);
        vstd::arithmetic::div_mod::lemma_div_pos_is_pos(u, ratio);
        vstd::arithmetic::div_mod::lemma_div_pos_is_pos(v, ratio);
        lemma_face_cell(m, a, w, u / ratio, v / ratio);
        assert(m * m * m == volume(ly));
    }
}

proof fn lemma_patch_open_blocks(
    y: Seq<ClientBlockInfo>,
    z: Seq<ClientBlockInfo>,
    m: nat,
    a: nat,
    w: int,
    u0: int,
    v0: int,
    ratio: nat,
    count: nat,
)
    requires
        a < 3,
        m <= 32,
        0 <= w < m,
        0 <= u0,
        u0 + ratio <= m,
        0 <= v0,
        v0 + ratio <= m,
        ratio >= 1,
        count <= ratio * ratio,
        y.len() == m * m * m,
        same_blocks(y, z),
    ensures
        patch_open(y, m, a, w, u0, v0, ratio, count) == patch_open(z, m, a, w, u0, v0, ratio,
            count),
    decreases count,
{
    if count > 0 {
        let j = (count - 1) as nat;
        lemma_patch_open_blocks(y, z, m, a, w, u0, v0, ratio, j);
        lemma_patch_cell(m, a, w, u0, v0, ratio, j);
    }
}

/// The `j`-th cell of a patch that fits the face lies inside the cube.
proof fn lemma_patch_cell(m: nat, a: nat, w: int, u0: int, v0: int, ratio: nat, j: nat)
    requires
        a < 3,
        m <= 32,
        0 <= w < m,
        0 <= u0,
        u0 + ratio <= m,
        0 <= v0,
        v0 + ratio <= m,
        ratio >= 1,
        j < ratio * ratio,
    ensures
        0 <= j / ratio < ratio,
        0 <= j % ratio < ratio,
        cell_inside(m, face_cell(a, w, u0 + (j / ratio) as int, v0 + (j % ratio) as int)),
        0 <= cell_index(m, face_cell(a, w, u0 + (j / ratio) as int, v0 + (j % ratio) as int)) < m
            * m * m,
{
    vstd::arithmetic::div_mod::lemma_multiply_divide_lt(j as int, ratio as int, ratio as int);
    vstd::arithmetic::div_mod::lemma_div_pos_is_pos(j as int, ratio as int);
    vstd::arithmetic::div_mod::lemma_mod_bound(j as int, ratio as int);
    lemma_face_cell(m, a, w, u0 + (j / ratio) as int, v0 + (j % ratio) as int);
}

/// The position with coordinate `w` along `dimension`, `u` along the axis
/// after it and `v` along the axis after that.
pub fn face_position(dimension: usize, w: usize, u: usize, v: usize) -> (r: LocalPosition)
    requires
        dimension < 3,
    ensures
        cell_of(r) == face_cell(dimension as nat, w as int, u as int, v as int),
{
    if dimension == 0 {
        LocalPosition { x: w, y: u, z: v }
    } else if dimension == 1 {
        LocalPosition { x: v, y: w, z: u }
    } else {
        LocalPosition { x: u, y: v, z: w }
    }
}

/// The flat index of a face cell of a chunk with edge `n`.
fn face_index(n: usize, dimension: usize, w: usize, u: usize, v: usize) -> (r: usize)
    requires
        dimension < 3,
        n <= 32,
        w < n,
        u < n,
        v < n,
    ensures
        r == cell_index(n as nat, face_cell(dimension as nat, w as int, u as int, v as int)),
        r < n * n * n,
{
    proof {
        lemma_face_cell(n as nat, dimension as nat, w as int, u as int, v as int);
        assert(n * n * n <= 32768) by (nonlinear_arith)
            requires
                n <= 32,
        ;
    }
    let p: LocalPosition = face_position(dimension, w, u, v);
    linearize(LocalPosition { x: n, y: n, z: n }, p)
}

/// Whether a cell of a square patch of a face of `fine` is not opaque.
fn patch_is_open(fine: &ClientChunk, dimension: usize, w: usize, u0: usize, v0: usize,
    ratio: usize) -> (r: bool)
    requires
        fine.wf(),
        dimension < 3,
        w < axis_len(fine.level()),
        u0 + ratio <= axis_len(fine.level()),
        v0 + ratio <= axis_len(fine.level()),
        ratio >= 1,
    ensures
        r == patch_open(
            fine@,
            axis_len(fine.level()),
            dimension as nat,
            w as int,
            u0 as int,
            v0 as int,
            ratio as nat,
            (ratio * ratio) as nat,
        ),
{
    proof {
        lemma_lod_table(fine.level());
    }
    let m: usize = chunk_axis(fine.lod).x;
    assert(ratio * ratio <= 1024) by (nonlinear_arith)
        requires
            ratio <= 32,
    ;
    let total: usize = ratio * ratio;
    let mut open: bool = false;
    let mut j: usize = 0;
    while j < total
        invariant
            j <= total,
            total == ratio * ratio,
            fine.wf(),
            m == axis_len(fine.level()),
            m <= 32,
            fine@.len() == m * m * m,
            dimension < 3,
            w < m,
            u0 + ratio <= m,
            v0 + ratio <= m,
            ratio >= 1,
            open == patch_open(
                fine@,
                m as nat,
                dimension as nat,
                w as int,
                u0 as int,
                v0 as int,
                ratio as nat,
                j as nat,
            ),
        decreases total - j,
    {
        proof {
            lemma_patch_cell(m as nat, dimension as nat, w as int, u0 as int, v0 as int,
                ratio as nat, j as nat);
        }
        let idx: usize = face_index(m, dimension, w, u0 + j / ratio, v0 + j % ratio);
        if !fine.get(idx).block.is_opaque() {
            open = true;
        }
        j = j + 1;
    }
    open
}

/// Writes the bit `bit` of the visibility mask of the cell `idx` and says
/// whether the mask changed.
fn resolve_cell(chunk: &mut ClientChunk, idx: usize, bit: u8, on: bool) -> (changed: bool)
    requires
        idx < old(chunk)@.len(),
        bit < 8,
    ensures
        final(chunk)@ == old(chunk)@.update(
            idx as int,
            (ClientBlockInfo {
                visible_mask: with_bit(old(chunk)@[idx as int].visible_mask, bit, on),
                ..old(chunk)@[idx as int]
            }),
        ),
        final(chunk).same_frame(old(chunk)),
        changed == (with_bit(old(chunk)@[idx as int].visible_mask, bit,
            on) != old(chunk)@[idx as int].visible_mask),
{
    let mut info: ClientBlockInfo = *chunk.get(idx);
    let before: u8 = info.visible_mask;
    info.visible_mask = write_bit(before, bit, on);
    let changed: bool = info.visible_mask != before;
    chunk.set(idx, info);
    changed
}

/// Whether the cell `p` on a face of the chunk `x` sees through to `y`.
fn cell_sees_through(
    n: usize,
    y: &ClientChunk,
    d: Direction,
    u: usize,
    v: usize,
    Ghost(lx): Ghost<nat>,
) -> (r: bool)
    requires
        y.wf(),
        lx <= 5,
        n == axis_len(lx),
        u < n,
        v < n,
    ensures
        r == sees_through(
            lx,
            face_cell(d.axis(), face_coord(n as nat, d), u as int, v as int),
            y@,
            y.level(),
            d,
        ),
{
    proof {
        lemma_lod_table(y.level());
        lemma_axis_ratio(lx, y.level());
        lemma_face_cell(n as nat, d.axis(), face_coord(n as nat, d), u as int, v as int);
        crate::world::direction::lemma_direction_roundtrip(d);
    }
    let m: usize = chunk_axis(y.lod).x;
    let a: usize = d.axis_index();
    let wy: usize = if d.is_positive() {
        0
    } else {
        m - 1
    };
    assert(wy == face_coord(m as nat, d.flipped()));
    if m >= n {
        let ratio: usize = m / n;
        assert(u * ratio + ratio <= m && v * ratio + ratio <= m) by (nonlinear_arith)
            requires
                u < n,
                v < n,
                ratio * n == m,
                ratio >= 1,
        ;
        patch_is_open(y, a, wy, u * ratio, v * ratio, ratio)
    } else {
        let ratio: usize = n / m;
        proof {
            vstd::arithmetic::div_mod::lemma_multiply_divide_lt(u as int, ratio as int, m as int);
            vstd::arithmetic::div_mod::lemma_multiply_divide_lt(v as int, ratio as int, m as int);
        }
        let idx: usize = face_index(m, a, wy, u / ratio, v / ratio);
        proof {
            assert(m * m * m == volume(y.level()));
        }
        !y.get(idx).block.is_opaque()
    }
}

/// Resolves the face `d` of the chunk `x` against the neighbour `y` that
/// lies across it, and says whether a mask of `x` changed.
pub fn resolve_face(x: &mut ClientChunk, y: &ClientChunk, d: Direction) -> (changed: bool)
    requires
        old(x).wf(),
        y.wf(),
    ensures
        final(x)@ == resolved(old(x)@, old(x).level(), y@, y.level(), d),
        final(x).same_frame(old(x)),
        final(x).wf(),
        same_blocks(old(x)@, final(x)@),
        changed == (final(x)@ != old(x)@),
{
    let ghost lx = x.level();
    let ghost old_x = x@;
    proof {
        lemma_lod_table(lx);
        lemma_axis_ratio(lx, y.level());
    }
    let n: usize = chunk_axis(x.lod).x;
    let a: usize = d.axis_index();
    let w: usize = if d.is_positive() {
        n - 1
    } else {
        0
    };
    let bit: u8 = d.bit();
    let mut changed: bool = false;
    let mut u: usize = 0;
    while u < n
        invariant
            u <= n,
            n == axis_len(lx),
            1 <= n <= 32,
            lx <= 5,
            y.wf(),
            a == d.axis(),
            a < 3,
            w == face_coord(n as nat, d),
            w < n,
            bit == d.index(),
            bit < 6,
            x.same_frame(old(x)),
            x.level() == lx,
            old_x == old(x)@,
            x@.len() == old_x.len(),
            old_x.len() == n * n * n,
            forall|up: int, vp: int|
                0 <= up < n && 0 <= vp < n && up < u ==> x@[#[trigger] cell_index(
                    n as nat,
                    face_cell(a as nat, w as int, up, vp),
                )] == resolved_info(
                    old_x,
                    lx,
                    y@,
                    y.level(),
                    d,
                    cell_index(n as nat, face_cell(a as nat, w as int, up, vp)),
                ),
            forall|up: int, vp: int|
                0 <= up < n && 0 <= vp < n && up >= u ==> x@[#[trigger] cell_index(
                    n as nat,
                    face_cell(a as nat, w as int, up, vp),
                )] == old_x[cell_index(n as nat, face_cell(a as nat, w as int, up, vp))],
            forall|i: int|
                0 <= i < old_x.len() && !on_face(n as nat, index_cell(n as nat, i), d)
                    ==> #[trigger] x@[i] == old_x[i],
            changed == (x@ != old_x),
        decreases n - u,
    {
        let mut v: usize = 0;
        while v < n
            invariant
                u < n,
                v <= n,
                n == axis_len(lx),
                1 <= n <= 32,
                lx <= 5,
                y.wf(),
                a == d.axis(),
                a < 3,
                w == face_coord(n as nat, d),
                w < n,
                bit == d.index(),
                bit < 6,
                x.same_frame(old(x)),
                x.level() == lx,
                old_x == old(x)@,
                x@.len() == old_x.len(),
                old_x.len() == n * n * n,
                forall|up: int, vp: int|
                    0 <= up < n && 0 <= vp < n && face_done(up, vp, u as int, v as int)
                        ==> x@[#[trigger] cell_index(
                        n as nat,
                        face_cell(a as nat, w as int, up, vp),
                    )] == resolved_info(
                        old_x,
                        lx,
                        y@,
                        y.level(),
                        d,
                        cell_index(n as nat, face_cell(a as nat, w as int, up, vp)),
                    ),
                forall|up: int, vp: int|
                    0 <= up < n && 0 <= vp < n && !face_done(up, vp, u as int, v as int)
                        ==> x@[#[trigger] cell_index(
                        n as nat,
                        face_cell(a as nat, w as int, up, vp),
                    )] == old_x[cell_index(n as nat, face_cell(a as nat, w as int, up, vp))],
                forall|i: int|
                    0 <= i < old_x.len() && !on_face(n as nat, index_cell(n as nat, i), d)
                        ==> #[trigger] x@[i] == old_x[i],
                changed == (x@ != old_x),
            decreases n - v,
        {
            let on: bool = cell_sees_through(n, y, d, u, v, Ghost(lx));
            let idx: usize = face_index(n, a, w, u, v);
            let ghost before = x@;
            let c: bool = resolve_cell(x, idx, bit, on);
            proof {
                let cell = face_cell(a as nat, w as int, u as int, v as int);
                lemma_face_cell(n as nat, a as nat, w as int, u as int, v as int);
                assert(before[idx as int] == old_x[idx as int]);
                assert(x@[idx as int] == resolved_info(old_x, lx, y@, y.level(), d, idx as int));
                assert forall|up: int, vp: int| 0 <= up < n && 0 <= vp < n implies 0
                    <= #[trigger] cell_index(n as nat, face_cell(a as nat, w as int, up, vp))
                    < n * n * n && ((up != u || vp != v) ==> cell_index(
                    n as nat,
                    face_cell(a as nat, w as int, up, vp),
                ) != idx) by {
                    lemma_face_cell(n as nat, a as nat, w as int, up, vp);
                }
                // The flag follows the cells: a cell that was written before
                // stays written, and this one differs exactly if its mask does.
                if changed || c {
                    if x@ == old_x {
                        assert(before =~= old_x) by {
                            assert forall|i: int| 0 <= i < before.len() implies before[i]
                                == old_x[i] by {
                                if i != idx {
                                    assert(before[i] == x@[i]);
                                }
                            }
                        }
                        assert(x@[idx as int].visible_mask == old_x[idx as int].visible_mask);
                        assert(false);
                    }
                } else {
                    assert(x@ =~= old_x);
                }
            }
            changed = changed || c;
            v = v + 1;
        }
        u = u + 1;
    }
    proof {
        assert(x@ =~= resolved(old_x, lx, y@, y.level(), d)) by {
            assert forall|i: int| 0 <= i < old_x.len() implies x@[i] == resolved_info(
                old_x,
                lx,
                y@,
                y.level(),
                d,
                i,
            ) by {
                let p = index_cell(n as nat, i);
                lemma_index_cell(n as nat, i);
                if on_face(n as nat, p, d) {
                    lemma_cell_is_face_cell(p, a as nat);
                    let up = face_u(p, a as nat);
                    let vp = face_v(p, a as nat);
                    assert(0 <= up < n && 0 <= vp < n);
                    assert(cell_index(n as nat, face_cell(a as nat, w as int, up, vp)) == i);
                }
            }
        }
    }
    changed
}

/// Resolves the face that two neighbouring chunks share, whatever their
/// levels of detail: on each side the bit of the direction towards the other
/// chunk is written for every cell of the face, set where the cell sees
/// through and cleared where everything behind it is opaque. The side with
/// the coarser cells is found by comparing the levels, not by the order of
/// the arguments. `dimension` and `normal` say again which way `dir` points.
/// The result says whether any mask, on either side, is not what it was.
pub fn calc_block_visible_mask_between_chunks(
    chunk: &mut ClientChunk,
    neighbor: &mut ClientChunk,
    dir: Direction,
    dimension: usize,
    normal: isize,
) -> (changed: bool)
    requires
        old(chunk).wf(),
        old(neighbor).wf(),
        dimension == dir.axis(),
        normal == dir.sign(),
    ensures
        final(chunk)@ == resolved(
            old(chunk)@,
            old(chunk).level(),
            old(neighbor)@,
            old(neighbor).level(),
            dir,
        ),
        final(neighbor)@ == resolved(
            old(neighbor)@,
            old(neighbor).level(),
            old(chunk)@,
            old(chunk).level(),
            dir.flipped(),
        ),
        final(chunk).same_frame(old(chunk)),
        final(neighbor).same_frame(old(neighbor)),
        final(chunk).wf(),
        final(neighbor).wf(),
        changed == (final(chunk)@ != old(chunk)@ || final(neighbor)@ != old(neighbor)@),
{
    let first: bool = resolve_face(chunk, neighbor, dir);
    let second: bool = resolve_face(neighbor, chunk, dir.opposite());
    proof {
        lemma_resolved_blocks(
            old(neighbor)@,
            old(neighbor).level(),
            old(chunk)@,
            chunk@,
            old(chunk).level(),
            dir.flipped(),
        );
    }
    first || second
}

/// Resolving a face against a neighbour gives the same cells for every
/// neighbour with the same blocks.
pub proof fn lemma_resolved_blocks(
    x: Seq<ClientBlockInfo>,
    lx: nat,
    y: Seq<ClientBlockInfo>,
    z: Seq<ClientBlockInfo>,
    ly: nat,
    d: Direction,
)
    requires
        lx <= 5,
        ly <= 5,
        x.len() == volume(lx),
        y.len() == volume(ly),
        same_blocks(y, z),
    ensures
        resolved(x, lx, y, ly, d) == resolved(x, lx, z, ly, d),
{
    lemma_lod_table(lx);
    assert(resolved(x, lx, y, ly, d) =~= resolved(x, lx, z, ly, d)) by {
        assert forall|i: int| 0 <= i < x.len() implies resolved_info(x, lx, y, ly, d, i)
            == resolved_info(x, lx, z, ly, d, i) by {
            lemma_index_cell(axis_len(lx), i);
            lemma_sees_through_blocks(lx, index_cell(axis_len(lx), i), y, z, ly, d);
        }
    }
}

/// After a face is resolved, the bit of the face's direction says, for
/// every cell on the face, whether the cell sees through to the neighbour;
/// every other bit of the cell, and every cell off the face, is as before.
/// Between chunks of one level the bit is therefore clear exactly where the
/// neighbour's cell across the face is opaque.
pub proof fn lemma_resolved_face_bits(
    x: Seq<ClientBlockInfo>,
    lx: nat,
    y: Seq<ClientBlockInfo>,
    ly: nat,
    d: Direction,
    i: int,
)
    requires
        lx <= 5,
        ly <= 5,
        x.len() == volume(lx),
        y.len() == volume(ly),
        0 <= i < x.len(),
    ensures
        ({
            let n = axis_len(lx);
            let p = index_cell(n, i);
            let after = resolved(x, lx, y, ly, d)[i];
            &&& after.block == x[i].block
            &&& after.ambient == x[i].ambient
            &&& forall|j: u8|
                j < 8 && j != d.index() ==> bit_set(after.visible_mask, j) == bit_set(
                    x[i].visible_mask,
                    j,
                )
            &&& on_face(n, p, d) ==> bit_set(after.visible_mask, d.index() as u8) == sees_through(
                lx,
                p,
                y,
                ly,
                d,
            )
            &&& !on_face(n, p, d) ==> after == x[i]
            &&& on_face(n, p, d) && lx == ly ==> (!bit_set(after.visible_mask, d.index() as u8)
                <==> y[cell_index(
                n,
                face_cell(d.axis(), face_coord(n, d.flipped()), face_u(p, d.axis()), face_v(p,
                    d.axis())),
            )].block.opaque())
        }),
{
    let n = axis_len(lx);
    let p = index_cell(n, i);
    lemma_lod_table(lx);
    crate::world::direction::lemma_direction_roundtrip(d);
    lemma_with_bit(x[i].visible_mask, d.index() as u8, sees_through(lx, p, y, ly, d));
    if lx == ly && on_face(n, p, d) {
        reveal_with_fuel(patch_open, 2);
        let a = d.axis();
        let w = face_coord(n, d.flipped());
        let u = face_u(p, a);
        let v = face_v(p, a);
        let ratio = n / n;
        assert(ratio == 1);
        assert(ratio * ratio == 1 && u * ratio == u && v * ratio == v) by (nonlinear_arith)
            requires
                ratio == 1,
        ;
        lemma_index_cell(n, i);
        lemma_face_cell(n, a, w, u, v);
        assert(sees_through(lx, p, y, ly, d) == patch_open(y, n, a, w, u, v, 1, 1));
        assert(patch_open(y, n, a, w, u, v, 1, 1) == !y[cell_index(
            n,
            face_cell(a, w, u, v),
        )].block.opaque());
    }
}

/// Resolving a shared face a second time changes nothing: the cells that
/// the first resolution left on both sides are what the second one leaves,
/// so a second run reports no change.
pub proof fn lemma_resolve_again(
    x: Seq<ClientBlockInfo>,
    lx: nat,
    y: Seq<ClientBlockInfo>,
    ly: nat,
    d: Direction,
)
    requires
        lx <= 5,
        ly <= 5,
        x.len() == volume(lx),
        y.len() == volume(ly),
    ensures
        ({
            let x1 = resolved(x, lx, y, ly, d);
            let y1 = resolved(y, ly, x, lx, d.flipped());
            resolved(x1, lx, y1, ly, d) == x1 && resolved(y1, ly, x1, lx, d.flipped()) == y1
        }),
{
    let x1 = resolved(x, lx, y, ly, d);
    let y1 = resolved(y, ly, x, lx, d.flipped());
    lemma_resolved_once_more(x, lx, y, y1, ly, d);
    lemma_resolved_once_more(y, ly, x, x1, lx, d.flipped());
}

proof fn lemma_resolved_once_more(
    x: Seq<ClientBlockInfo>,
    lx: nat,
    y: Seq<ClientBlockInfo>,
    y1: Seq<ClientBlockInfo>,
    ly: nat,
    d: Direction,
)
    requires
        lx <= 5,
        ly <= 5,
        x.len() == volume(lx),
        y.len() == volume(ly),
        same_blocks(y, y1),
    ensures
        resolved(resolved(x, lx, y, ly, d), lx, y1, ly, d) == resolved(x, lx, y, ly, d),
        same_blocks(x, resolved(x, lx, y, ly, d)),
{
    let x1 = resolved(x, lx, y, ly, d);
    lemma_lod_table(lx);
    crate::world::direction::lemma_direction_roundtrip(d);
    assert(resolved(x1, lx, y1, ly, d) =~= x1) by {
        assert forall|i: int| 0 <= i < x.len() implies resolved_info(x1, lx, y1, ly, d, i)
            == x1[i] by {
            let p = index_cell(axis_len(lx), i);
            lemma_index_cell(axis_len(lx), i);
            lemma_sees_through_blocks(lx, p, y, y1, ly, d);
            lemma_with_bit(x[i].visible_mask, d.index() as u8, sees_through(lx, p, y, ly, d));
        }
    }
}

/// Whether no cell on the face `dir` of the chunk shows that face.
/// `dimension` and `normal` say again which way `dir` points.
pub fn are_all_border_blocks_invisible(
    chunk: &ClientChunk,
    dir: Direction,
    dimension: usize,
    normal: isize,
) -> (r: bool)
    requires
        chunk.wf(),
        dimension == dir.axis(),
        normal == dir.sign(),
    ensures
        r == (forall|u: int, v: int|
            0 <= u < axis_len(chunk.level()) && 0 <= v < axis_len(chunk.level()) ==> !bit_set(
                chunk@[#[trigger] cell_index(
                    axis_len(chunk.level()),
                    face_cell(dir.axis(), face_coord(axis_len(chunk.level()), dir), u, v),
                )].visible_mask,
                dir.index() as u8,
            )),
{
    proof {
        lemma_lod_table(chunk.level());
    }
    let n: usize = chunk_axis(chunk.lod).x;
    let a: usize = dimension;
    let w: usize = if normal == 1 {
        n - 1
    } else {
        0
    };
    let bit: u8 = dir.bit();
    let mut u: usize = 0;
    while u < n
        invariant
            u <= n,
            chunk.wf(),
            n == axis_len(chunk.level()),
            1 <= n <= 32,
            a == dir.axis(),
            a < 3,
            w == face_coord(n as nat, dir),
            w < n,
            bit == dir.index(),
            bit < 6,
            chunk@.len() == n * n * n,
            forall|up: int, vp: int|
                0 <= up < u && 0 <= vp < n ==> !bit_set(
                    chunk@[#[trigger] cell_index(n as nat, face_cell(a as nat, w as int, up,
                        vp))].visible_mask,
                    bit,
                ),
        decreases n - u,
    {
        let mut v: usize = 0;
        while v < n
            invariant
                u < n,
                v <= n,
                chunk.wf(),
                n == axis_len(chunk.level()),
                1 <= n <= 32,
                a == dir.axis(),
                a < 3,
                w == face_coord(n as nat, dir),
                w < n,
                bit == dir.index(),
                bit < 6,
                chunk@.len() == n * n * n,
                forall|up: int, vp: int|
                    0 <= up < n && 0 <= vp < n && face_done(up, vp, u as int, v as int)
                        ==> !bit_set(
                        chunk@[#[trigger] cell_index(
                            n as nat,
                            face_cell(a as nat, w as int, up, vp),
                        )].visible_mask,
                        bit,
                    ),
            decreases n - v,
        {
            let idx: usize = face_index(n, a, w, u, v);
            if crate::util::bits::test_bit(chunk.get(idx).visible_mask, bit) {
                return false;
            }
            v = v + 1;
        }
        u = u + 1;
    }
    true
}

} // verus!
