use vstd::arithmetic::power2::{lemma2_to64, lemma_pow2_strictly_increases, lemma_pow2_unfold, pow2};
use vstd::prelude::*;

use crate::world::position::LocalPosition;

verus! {

/// Blocks along one edge of a chunk at full detail.
pub const CHUNK_AXIS: usize = 32;

/// Blocks in a chunk at full detail.
pub const CHUNK_SIZE: usize = 32768;

/// The coarsest level of detail: one block per chunk.
pub const MAX_LOD: usize = 5;

/// How many full-detail blocks one block of level `lod` spans along an edge.
pub open spec fn lod_scale(lod: nat) -> nat {
    pow2(lod)
}

/// Blocks along one edge of a chunk at level `lod`.
pub open spec fn axis_len(lod: nat) -> nat {
    32nat / lod_scale(lod)
}

/// Blocks in a chunk at level `lod`.
pub open spec fn volume(lod: nat) -> nat {
    axis_len(lod) * axis_len(lod) * axis_len(lod)
}

/// The extent of a chunk at level `lod` as a position.
pub open spec fn axis_of(lod: nat) -> LocalPosition {
    LocalPosition { x: axis_len(lod) as usize, y: axis_len(lod) as usize,
        z: axis_len(lod) as usize }
}

/// The edge lengths and volumes of the six levels of detail that hold at
/// least one block, and the emptiness of every coarser level.
pub proof fn lemma_lod_table(lod: nat)
    ensures
        lod == 0 ==> lod_scale(lod) == 1 && axis_len(lod) == 32 && volume(lod) == 32768,
        lod == 1 ==> lod_scale(lod) == 2 && axis_len(lod) == 16 && volume(lod) == 4096,
        lod == 2 ==> lod_scale(lod) == 4 && axis_len(lod) == 8 && volume(lod) == 512,
        lod == 3 ==> lod_scale(lod) == 8 && axis_len(lod) == 4 && volume(lod) == 64,
        lod == 4 ==> lod_scale(lod) == 16 && axis_len(lod) == 2 && volume(lod) == 8,
        lod == 5 ==> lod_scale(lod) == 32 && axis_len(lod) == 1 && volume(lod) == 1,
        lod > 5 ==> lod_scale(lod) > 32 && axis_len(lod) == 0 && volume(lod) == 0,
        lod <= 5 ==> axis_len(lod) * lod_scale(lod) == 32 && 1 <= axis_len(lod) <= 32,
        volume(lod) <= 32768,
{
    lemma2_to64();
    if lod > 5 {
        lemma_pow2_strictly_increases(5, lod);
        vstd::arithmetic::div_mod::lemma_basic_div(32, pow2(lod) as int);
    }
}

/// The scale of a level of detail: two to the power `lod`.
pub fn chunk_lod(lod: usize) -> (r: usize)
    requires
        lod_scale(lod as nat) <= usize::MAX,
    ensures
        r == lod_scale(lod as nat),
        r >= 1,
{
    let mut r: usize = 1;
    let mut i: usize = 0;
    proof {
        lemma2_to64();
    }
    while i < lod
        invariant
            i <= lod,
            r == pow2(i as nat),
            r >= 1,
            pow2(lod as nat) <= usize::MAX,
        decreases lod - i,
    {
        proof {
            lemma_pow2_unfold((i + 1) as nat);
            if i + 1 < lod {
                lemma_pow2_strictly_increases((i + 1) as nat, lod as nat);
            }
        }
        r = r * 2;
        i = i + 1;
    }
    r
}

/// The extent of a chunk at level `lod`: `CHUNK_AXIS / 2^lod` on every axis.
pub fn chunk_axis(lod: usize) -> (r: LocalPosition)
    requires
        lod_scale(lod as nat) <= usize::MAX,
    ensures
        r == axis_of(lod as nat),
        r.x == axis_len(lod as nat),
{
    let a: usize = CHUNK_AXIS / chunk_lod(lod);
    LocalPosition { x: a, y: a, z: a }
}

/// The number of blocks in a chunk at level `lod`.
pub fn chunk_size(lod: usize) -> (r: usize)
    requires
        lod_scale(lod as nat) <= usize::MAX,
    ensures
        r == volume(lod as nat),
{
    let a: usize = CHUNK_AXIS / chunk_lod(lod);
    assert(a * a <= 1024 && a * a * a <= 32768) by (nonlinear_arith)
        requires
            a <= 32,
    ;
    a * a * a
}

/// The number of cells of a box with edges `axis`.
pub open spec fn box_volume(axis: LocalPosition) -> int {
    axis.x * axis.y * axis.z
}

/// The flat index of `v` in a box with edges `axis`: x runs fastest, then y,
/// then z.
pub open spec fn linear_index(axis: LocalPosition, v: LocalPosition) -> int {
    (v.z * axis.y + v.y) * axis.x + v.x
}

/// The cell of a box with edges `axis` that the flat index `i` names.
pub open spec fn position_of(axis: LocalPosition, i: int) -> (int, int, int) {
    let plane = axis.x * axis.y;
    let z = i / plane;
    let rest = i - z * plane;
    (rest % (axis.x as int), rest / (axis.x as int), z)
}

/// The index of a cell inside the box is below the box's volume.
pub proof fn lemma_linear_index_bound(axis: LocalPosition, v: LocalPosition)
    requires
        v.within(axis),
    ensures
        0 <= linear_index(axis, v) < box_volume(axis),
        0 <= v.z * axis.y + v.y < axis.y * axis.z,
{
    let (ax, ay, az) = (axis.x as int, axis.y as int, axis.z as int);
    let (x, y, z) = (v.x as int, v.y as int, v.z as int);
    assert(z * ay + y <= (az - 1) * ay + ay - 1) by (nonlinear_arith)
        requires
            0 <= z <= az - 1,
            0 <= y <= ay - 1,
            ay > 0,
    ;
    assert((az - 1) * ay + ay - 1 == ay * az - 1) by (nonlinear_arith);
    let row = z * ay + y;
    assert(0 <= row) by (nonlinear_arith)
        requires
            0 <= z,
            0 <= y,
            ay > 0,
            row == z * ay + y,
    ;
    assert(row * ax + x <= (ay * az - 1) * ax + ax - 1) by (nonlinear_arith)
        requires
            0 <= row <= ay * az - 1,
            0 <= x <= ax - 1,
            ax > 0,
    ;
    assert((ay * az - 1) * ax + ax - 1 == ax * ay * az - 1) by (nonlinear_arith);
    assert(0 <= row * ax + x) by (nonlinear_arith)
        requires
            0 <= row,
            0 <= x,
            ax > 0,
    ;
}

/// Taking the index of a cell and then the cell of that index gives the
/// cell back, for every box and every cell inside it.
pub proof fn lemma_delinearize_linearize(axis: LocalPosition, v: LocalPosition)
    requires
        v.within(axis),
    ensures
        position_of(axis, linear_index(axis, v)) == (v.x as int, v.y as int, v.z as int),
{
    let (ax, ay) = (axis.x as int, axis.y as int);
    let (x, y, z) = (v.x as int, v.y as int, v.z as int);
    let plane = ax * ay;
    let i = linear_index(axis, v);
    let inner = y * ax + x;
    assert(0 <= inner < plane) by (nonlinear_arith)
        requires
            0 <= x < ax,
            0 <= y < ay,
            inner == y * ax + x,
            plane == ax * ay,
    ;
    assert(i == z * plane + inner) by (nonlinear_arith)
        requires
            i == (z * ay + y) * ax + x,
            inner == y * ax + x,
            plane == ax * ay,
    ;
    vstd::arithmetic::div_mod::lemma_fundamental_div_mod_converse(i, plane, z, inner);
    assert(i / plane == z);
    assert(i - z * plane == inner);
    vstd::arithmetic::div_mod::lemma_fundamental_div_mod_converse(inner, ax, y, x);
}

/// Taking the cell of an index below the volume and then the index of that
/// cell gives the index back, and the cell lies inside the box.
pub proof fn lemma_linearize_delinearize(axis: LocalPosition, i: int)
    requires
        0 <= i < box_volume(axis),
    ensures
        ({
            let (x, y, z) = position_of(axis, i);
            0 <= x < axis.x && 0 <= y < axis.y && 0 <= z < axis.z && (z * axis.y + y) * axis.x + x
                == i
        }),
{
    let (ax, ay, az) = (axis.x as int, axis.y as int, axis.z as int);
    assert(ax > 0 && ay > 0 && az > 0) by (nonlinear_arith)
        requires
            0 < ax * ay * az,
            ax >= 0,
            ay >= 0,
            az >= 0,
    ;
    let plane = ax * ay;
    assert(plane > 0) by (nonlinear_arith)
        requires
            ax > 0,
            ay > 0,
            plane == ax * ay,
    ;
    let z = i / plane;
    let rest = i - z * plane;
    vstd::arithmetic::div_mod::lemma_fundamental_div_mod(i, plane);
    vstd::arithmetic::div_mod::lemma_mod_bound(i, plane);
    assert(rest == i % plane) by (nonlinear_arith)
        requires
            i == plane * (i / plane) + i % plane,
            z == i / plane,
            rest == i - z * plane,
    ;
    vstd::arithmetic::div_mod::lemma_div_pos_is_pos(i, plane);
    assert(z < az) by (nonlinear_arith)
        requires
            i < plane * az,
            i == plane * z + rest,
            rest >= 0,
            plane > 0,
    ;
    let y = rest / ax;
    let x = rest % ax;
    vstd::arithmetic::div_mod::lemma_fundamental_div_mod(rest, ax);
    vstd::arithmetic::div_mod::lemma_mod_bound(rest, ax);
    vstd::arithmetic::div_mod::lemma_div_pos_is_pos(rest, ax);
    assert(y < ay) by (nonlinear_arith)
        requires
            rest < ax * ay,
            rest == ax * y + x,
            x >= 0,
            ax > 0,
    ;
    assert((z * ay + y) * ax + x == i) by (nonlinear_arith)
        requires
            i == plane * z + rest,
            rest == ax * y + x,
            plane == ax * ay,
    ;
}

/// Whether the cell `p` lies in a cube with edge `n`.
pub open spec fn cell_inside(n: nat, p: (int, int, int)) -> bool {
    0 <= p.0 < n && 0 <= p.1 < n && 0 <= p.2 < n
}

/// The flat index of the cell `p` of a cube with edge `n`.
pub open spec fn cell_index(n: nat, p: (int, int, int)) -> int {
    (p.2 * n + p.1) * n + p.0
}

/// The cell of a cube with edge `n` that the flat index `i` names.
pub open spec fn index_cell(n: nat, i: int) -> (int, int, int) {
    position_of(LocalPosition { x: n as usize, y: n as usize, z: n as usize }, i)
}

/// A position as a triple of integers.
pub open spec fn cell_of(v: LocalPosition) -> (int, int, int) {
    (v.x as int, v.y as int, v.z as int)
}

/// In a cube with an edge of at most 32, cells inside and indices below the
/// volume correspond one to one.
pub proof fn lemma_cell_index(n: nat, p: (int, int, int))
    requires
        n <= 32,
        cell_inside(n, p),
    ensures
        0 <= cell_index(n, p) < n * n * n,
        index_cell(n, cell_index(n, p)) == p,
{
    let axis = LocalPosition { x: n as usize, y: n as usize, z: n as usize };
    let v = LocalPosition { x: p.0 as usize, y: p.1 as usize, z: p.2 as usize };
    lemma_linear_index_bound(axis, v);
    lemma_delinearize_linearize(axis, v);
}

/// In a cube with an edge of at most 32, the cell of an index below the
/// volume lies inside and has that index.
pub proof fn lemma_index_cell(n: nat, i: int)
    requires
        n <= 32,
        0 <= i < n * n * n,
    ensures
        cell_inside(n, index_cell(n, i)),
        cell_index(n, index_cell(n, i)) == i,
{
    let axis = LocalPosition { x: n as usize, y: n as usize, z: n as usize };
    lemma_linearize_delinearize(axis, i);
}

/// The flat index of the cell `v` of a box with edges `axis`.
pub fn linearize(axis: LocalPosition, v: LocalPosition) -> (i: usize)
    requires
        v.within(axis),
        box_volume(axis) <= usize::MAX,
    ensures
        i == linear_index(axis, v),
        i < box_volume(axis),
{
    proof {
        lemma_linear_index_bound(axis, v);
        assert(0 <= v.z * axis.y <= v.z * axis.y + v.y) by (nonlinear_arith);
        assert(axis.y * axis.z <= axis.x * axis.y * axis.z) by (nonlinear_arith)
            requires
                axis.x >= 1,
        ;
        let row = v.z * axis.y + v.y;
        assert(0 <= row * axis.x <= row * axis.x + v.x) by (nonlinear_arith)
            requires
                row >= 0,
        ;
    }
    (v.z * axis.y + v.y) * axis.x + v.x
}

/// The cell of a box with edges `axis` that the flat index `i` names.
pub fn delinearize(axis: LocalPosition, i: usize) -> (v: LocalPosition)
    requires
        axis.x > 0,
        axis.y > 0,
        axis.x * axis.y <= usize::MAX,
    ensures
        (v.x as int, v.y as int, v.z as int) == position_of(axis, i as int),
        i < box_volume(axis) ==> v.within(axis) && linear_index(axis, v) == i,
{
    let plane: usize = axis.x * axis.y;
    assert(plane > 0) by (nonlinear_arith)
        requires
            axis.x > 0,
            axis.y > 0,
            plane == axis.x * axis.y,
    ;
    let z: usize = i / plane;
    proof {
        vstd::arithmetic::div_mod::lemma_fundamental_div_mod(i as int, plane as int);
        vstd::arithmetic::div_mod::lemma_mod_bound(i as int, plane as int);
        assert(z * plane == plane * z) by (nonlinear_arith);
        if i < box_volume(axis) {
            lemma_linearize_delinearize(axis, i as int);
        }
    }
    let rest: usize = i - z * plane;
    let y: usize = rest / axis.x;
    let x: usize = rest % axis.x;
    LocalPosition { x, y, z }
}

} // verus!
