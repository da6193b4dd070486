use vstd::prelude::*;

use crate::world::chunk::ServerChunk;
use crate::world::dimension::ChunkState;
use crate::world::position::ChunkPosition;
use crate::world::server::{
    is_shell_place, lemma_ring_count_grows, lemma_ring_start_grows, lemma_shell_found,
    needed_at, needed_between, on_ring, ring_cell, ring_cells, ring_count, ring_side, ring_start,
    shell_rank,
};

verus! {

/// The distance of an offset from the origin, counted in shells: the
/// largest absolute value among its coordinates.
pub open spec fn shell_of(o: (int, int, int)) -> nat {
    let a = if o.0 < 0 {
        -o.0
    } else {
        o.0
    };
    let b = if o.1 < 0 {
        -o.1
    } else {
        o.1
    };
    let c = if o.2 < 0 {
        -o.2
    } else {
        o.2
    };
    let m = if a >= b && a >= c {
        a
    } else if b >= c {
        b
    } else {
        c
    };
    m as nat
}

/// The place of an offset in the cube of its shell.
pub open spec fn place_in_cube(o: (int, int, int)) -> nat {
    let j = shell_of(o);
    let s = ring_side(j);
    (((o.0 + j) * s + (o.1 + j)) * s + (o.2 + j)) as nat
}

/// An offset lies on its shell, at its place in the shell's cube.
pub proof fn lemma_offset_on_shell(o: (int, int, int))
    ensures
        place_in_cube(o) < ring_cells(shell_of(o)),
        ring_cell(shell_of(o), place_in_cube(o)) == o,
        on_ring(shell_of(o), o),
{
    let j = shell_of(o) as int;
    let s = ring_side(j as nat) as int;
    let x = o.0 + j;
    let y = o.1 + j;
    let z = o.2 + j;
    assert(0 <= x < s && 0 <= y < s && 0 <= z < s);
    let row = x * s + y;
    let t = row * s + z;
    assert(0 <= row < s * s && 0 <= t < s * s * s && s * s > 0) by (nonlinear_arith)
        requires
            0 <= x < s,
            0 <= y < s,
            0 <= z < s,
            row == x * s + y,
            t == row * s + z,
    ;
    assert(t == place_in_cube(o));
    vstd::arithmetic::div_mod::lemma_fundamental_div_mod_converse(t, s, row, z);
    vstd::arithmetic::div_mod::lemma_fundamental_div_mod_converse(row, s, x, y);
    let rest = y * s + z;
    assert(0 <= rest < s * s && t == x * (s * s) + rest) by (nonlinear_arith)
        requires
            0 <= y < s,
            0 <= z < s,
            rest == y * s + z,
            t == (x * s + y) * s + z,
    ;
    vstd::arithmetic::div_mod::lemma_fundamental_div_mod_converse(t, s * s, x, rest);
}

/// The walk through the shells of every radius up to `d` holds each offset
/// within that distance: the offset stands on its shell, at a place before
/// the walk's end.
pub proof fn lemma_walk_holds(d: usize, o: (int, int, int))
    requires
        shell_of(o) <= d,
        ring_start(d as nat + 1) <= usize::MAX,
    ensures
        shell_rank(shell_of(o), place_in_cube(o)) < ring_start(d as nat + 1),
        is_shell_place(
            d,
            shell_rank(shell_of(o), place_in_cube(o)) as usize,
            shell_of(o),
            place_in_cube(o),
        ),
{
    let j = shell_of(o);
    let t = place_in_cube(o);
    lemma_offset_on_shell(o);
    lemma_ring_start_grows(j + 1, d as nat + 1);
    lemma_ring_count_grows(j, t + 1, ring_cells(j));
    assert(ring_count(j, t + 1) == ring_count(j, t) + 1);
    assert(ring_start(j + 1) == ring_start(j) + ring_count(j, ring_cells(j)));
}

/// What a place of the walk asks for is, once the walk has passed the
/// place, a chunk that stands, a position that waited in the list, or one of
/// the positions that the walk added.
pub proof fn lemma_place_is_served(
    chunks: Map<ChunkPosition, ChunkState<ServerChunk>>,
    listed: Seq<ChunkPosition>,
    d: usize,
    center: ChunkPosition,
    lo: usize,
    hi: usize,
    i: usize,
)
    requires
        lo <= i < hi,
        needed_at(d, center, i).is_some(),
    ensures
        ({
            let p = needed_at(d, center, i).unwrap();
            chunks.contains_key(p) || listed.contains(p) || needed_between(
                chunks,
                listed,
                d,
                center,
                lo,
                hi,
            ).contains(p)
        }),
    decreases hi,
{
    let p = needed_at(d, center, i).unwrap();
    let rest = needed_between(chunks, listed, d, center, lo, (hi - 1) as usize);
    let all = needed_between(chunks, listed, d, center, lo, hi);
    if i < hi - 1 {
        lemma_place_is_served(chunks, listed, d, center, lo, (hi - 1) as usize, i);
        if rest.contains(p) {
            let k = rest.index_of(p);
            if all != rest {
                assert(all[k] == p);
            }
        }
    } else {
        if !(chunks.contains_key(p) || listed.contains(p) || rest.contains(p)) {
            assert(all == rest.push(p));
            assert(all[rest.len() as int] == p);
        }
    }
}

/// A walk taken from its start to its end leaves no chunk within the
/// distance unasked for: each position whose offset from the centre lies
/// within the distance holds a chunk, waited in the list, or was added to
/// it.
pub proof fn lemma_walk_asks_for_all(
    chunks: Map<ChunkPosition, ChunkState<ServerChunk>>,
    listed: Seq<ChunkPosition>,
    d: usize,
    center: ChunkPosition,
    q: ChunkPosition,
    hi: usize,
)
    requires
        shell_of((q.x - center.x, q.y - center.y, q.z - center.z)) <= d,
        ring_start(d as nat + 1) <= hi,
    ensures
        chunks.contains_key(q) || listed.contains(q) || needed_between(
            chunks,
            listed,
            d,
            center,
            0,
            hi,
        ).contains(q),
{
    let o = (q.x - center.x, q.y - center.y, q.z - center.z);
    lemma_walk_holds(d, o);
    let i = shell_rank(shell_of(o), place_in_cube(o)) as usize;
    lemma_shell_found(d, i, shell_of(o), place_in_cube(o));
    lemma_offset_on_shell(o);
    assert(needed_at(d, center, i) == Some(q));
    lemma_place_is_served(chunks, listed, d, center, 0, hi, i);
}

} // verus!
