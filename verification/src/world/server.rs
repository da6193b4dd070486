use std::collections::VecDeque;

use vstd::prelude::*;

use crate::util::rle::{decoded, encode, encoded};
use crate::world::block::Block;
use crate::world::chunk::{Chunk, ServerChunk};
use crate::world::dimension::{
    chunk_of_cell, edited_blocks, edits_applied, hit_of, local_of_cell, names_chunk, raycast,
    waiting_elsewhere, ChunkState, Dimension, Edit,
};
use crate::world::entity::{Change, Loader};
use crate::world::position::ChunkPosition;
use crate::world::raycast::{Ray, Target};

verus! {

/// The most shell indices that one tick walks through for one loader.
pub const MAX_NEEDED_PER_TICK: usize = 512;

/// A request to generate a chunk.
#[derive(Clone, Copy, Debug, PartialEq, Eq)]
pub struct GenReq {
    pub position: ChunkPosition,
    pub lod: usize,
}

/// A generated chunk.
pub struct GenResp {
    pub position: ChunkPosition,
    pub chunk: ServerChunk,
    pub lod: usize,
}

/// The message that hands a whole chunk to a client.
pub struct ChunkActivated {
    pub position: ChunkPosition,
    pub lod: usize,
    /// The run-length encoding of the chunk's blocks.
    pub bytes: Vec<u8>,
}

/// The message that hands the new blocks of a chunk to a client.
pub struct ChunkUpdated {
    pub position: ChunkPosition,
    /// The run-length encoding of the chunk's blocks.
    pub bytes: Vec<u8>,
}

/// The edge of the cube that holds the shell of radius `j`.
pub open spec fn ring_side(j: nat) -> nat {
    2 * j + 1
}

/// The `t`-th cell of the cube around the origin with radius `j`, the first
/// coordinate running slowest.
pub open spec fn ring_cell(j: nat, t: nat) -> (int, int, int) {
    let s = ring_side(j);
    ((t / (s * s)) as int - j, ((t / s) % s) as int - j, (t % s) as int - j)
}

/// Whether the cell lies on the shell of radius `j`: one coordinate has the
/// absolute value `j`.
pub open spec fn on_ring(j: nat, c: (int, int, int)) -> bool {
    c.0 == j || c.0 == -j || c.1 == j || c.1 == -j || c.2 == j || c.2 == -j
}

/// How many of the first `t` cells of the cube of radius `j` lie on the
/// shell.
pub open spec fn ring_count(j: nat, t: nat) -> nat
    decreases t,
{
    if t == 0 {
        0
    } else {
        ring_count(j, (t - 1) as nat) + if on_ring(j, ring_cell(j, (t - 1) as nat)) {
            1nat
        } else {
            0nat
        }
    }
}

/// The cells of the cube of radius `j`.
pub open spec fn ring_cells(j: nat) -> nat {
    ring_side(j) * ring_side(j) * ring_side(j)
}

/// How many offsets the shells of a radius below `j` hold together.
pub open spec fn ring_start(j: nat) -> nat
    decreases j,
{
    if j == 0 {
        0
    } else {
        ring_start((j - 1) as nat) + ring_count((j - 1) as nat, ring_cells((j - 1) as nat))
    }
}

/// The place of the `t`-th cell of the cube of radius `j` in the walk
/// through the shells: shell by shell from the origin outwards, each shell
/// in the order of its cube.
pub open spec fn shell_rank(j: nat, t: nat) -> nat {
    ring_start(j) + ring_count(j, t)
}

/// The count of shell cells grows with the cells looked at.
pub proof fn lemma_ring_count_grows(j: nat, a: nat, b: nat)
    requires
        a <= b,
    ensures
        ring_count(j, a) <= ring_count(j, b),
    decreases b,
{
    if a < b {
        lemma_ring_count_grows(j, a, (b - 1) as nat);
    }
}

/// The shells start one after the other.
pub proof fn lemma_ring_start_grows(a: nat, b: nat)
    requires
        a <= b,
    ensures
        ring_start(a) <= ring_start(b),
    decreases b,
{
    if a < b {
        lemma_ring_start_grows(a, (b - 1) as nat);
    }
}

/// The walk through the shells goes nearest first: of two shell cells, the
/// one that comes earlier in the walk does not lie on a farther shell.
pub proof fn lemma_nearest_first(j1: nat, t1: nat, j2: nat, t2: nat)
    requires
        t1 < ring_cells(j1),
        t2 < ring_cells(j2),
        on_ring(j1, ring_cell(j1, t1)),
        on_ring(j2, ring_cell(j2, t2)),
        shell_rank(j1, t1) < shell_rank(j2, t2),
    ensures
        j1 <= j2,
{
    if j1 > j2 {
        lemma_ring_start_grows(j2 + 1, j1);
        lemma_ring_count_grows(j2, t2 + 1, ring_cells(j2));
        assert(ring_count(j2, t2 + 1) == ring_count(j2, t2) + 1);
        assert(ring_start(j2 + 1) == ring_start(j2) + ring_count(j2, ring_cells(j2)));
    }
}

/// The cube of a wider shell has more cells.
proof fn lemma_ring_cells_grow(a: nat, b: nat)
    requires
        a <= b,
    ensures
        ring_side(a) * ring_side(a) <= ring_cells(a),
        ring_cells(a) <= ring_cells(b),
        1 <= ring_side(a) <= ring_cells(a),
        ring_cells(a) <= usize::MAX ==> ring_side(a) <= isize::MAX,
{
    let s = ring_side(a) as int;
    let t = ring_side(b) as int;
    assert(s <= s * s && s * s <= s * s * s && s * s * s <= t * t * t) by (nonlinear_arith)
        requires
            1 <= s <= t,
    ;
    if s >= 3 {
        assert(s * 9 <= s * s * s) by (nonlinear_arith)
            requires
                s >= 3,
        ;
    }
}

/// Finds the shell cell that stands at place `i` of the walk through the
/// shells of every radius up to `load_distance`: the radius of its shell and
/// its place in the shell's cube. There is none if the shells hold no more
/// than `i` offsets.
pub fn shell_find(load_distance: usize, i: usize) -> (r: Option<(usize, usize)>)
    requires
        ring_cells(load_distance as nat) <= usize::MAX,
    ensures
        match r {
            Some((j, t)) => is_shell_place(load_distance, i, j as nat, t as nat),
            None => ring_start(load_distance as nat + 1) <= i,
        },
{
    proof {
        lemma_ring_cells_grow(load_distance as nat, load_distance as nat);
    }
    let mut b: usize = 0;
    let mut j: usize = 0;
    while j <= load_distance
        invariant
            j <= load_distance + 1,
            ring_cells(load_distance as nat) <= usize::MAX,
            2 * load_distance + 1 <= usize::MAX,
            b == ring_start(j as nat),
            b <= i,
        decreases load_distance + 1 - j,
    {
        proof {
            lemma_ring_cells_grow(j as nat, load_distance as nat);
        }
        let side: usize = 2 * j + 1;
        let plane: usize = side * side;
        let cells: usize = side * side * side;
        let mut t: usize = 0;
        while t < cells
            invariant
                t <= cells,
                j <= load_distance,
                side == ring_side(j as nat),
                plane == side * side,
                cells == ring_cells(j as nat),
                side >= 1,
                b == ring_start(j as nat) + ring_count(j as nat, t as nat),
                b <= i,
            decreases cells - t,
        {
            assert(plane > 0) by (nonlinear_arith)
                requires
                    plane == side * side,
                    side >= 1,
            ;
            let x: usize = t / plane;
            let y: usize = (t / side) % side;
            let z: usize = t % side;
            let far: usize = 2 * j;
            proof {
                vstd::arithmetic::div_mod::lemma_multiply_divide_lt(
                    t as int,
                    plane as int,
                    side as int,
                );
            }
            let member: bool = x == 0 || x == far || y == 0 || y == far || z == 0 || z == far;
            assert(member == on_ring(j as nat, ring_cell(j as nat, t as nat)));
            if member {
                if b == i {
                    return Some((j, t));
                }
                b = b + 1;
            }
            t = t + 1;
        }
        j = j + 1;
    }
    None
}

/// The `t`-th cell of the cube of radius `j`, a radius up to `d`.
fn shell_cell(j: usize, t: usize, Ghost(d): Ghost<usize>) -> (r: ChunkPosition)
    requires
        ring_cells(d as nat) <= usize::MAX,
        j <= d,
        t < ring_cells(j as nat),
    ensures
        (r.x as int, r.y as int, r.z as int) == ring_cell(j as nat, t as nat),
{
    proof {
        lemma_ring_cells_grow(j as nat, d as nat);
    }
    let side: usize = 2 * j + 1;
    let plane: usize = side * side;
    assert(plane > 0) by (nonlinear_arith)
        requires
            plane == side * side,
            side >= 1,
    ;
    proof {
        vstd::arithmetic::div_mod::lemma_multiply_divide_lt(t as int, plane as int, side as int);
    }
    ChunkPosition {
        x: (t / plane) as isize - j as isize,
        y: ((t / side) % side) as isize - j as isize,
        z: (t % side) as isize - j as isize,
    }
}

/// The offset at place `i` of the walk through the shells of every radius
/// up to `load_distance`, nearest first; none where the walk holds no such
/// place.
pub fn shell_offset(load_distance: usize, i: usize) -> (r: Option<ChunkPosition>)
    requires
        ring_cells(load_distance as nat) <= usize::MAX,
    ensures
        match shell_found(load_distance, i) {
            Some((j, t)) => r.is_some() && (
                r.unwrap().x as int,
                r.unwrap().y as int,
                r.unwrap().z as int,
            ) == ring_cell(j, t),
            None => r.is_none(),
        },
{
    match shell_find(load_distance, i) {
        Some((j, t)) => {
            proof {
                lemma_shell_found(load_distance, i, j as nat, t as nat);
            }
            Some(shell_cell(j, t, Ghost(load_distance)))
        },
        None => {
            proof {
                lemma_shell_not_found(load_distance, i);
            }
            None
        },
    }
}

/// Whether the `t`-th cell of the cube of radius `j` is the shell cell at
/// place `i` of the walk through the shells of every radius up to `d`.
pub open spec fn is_shell_place(d: usize, i: usize, j: nat, t: nat) -> bool {
    j <= d && t < ring_cells(j) && on_ring(j, ring_cell(j, t)) && shell_rank(j, t) == i
}

/// The shell cell at place `i` of the walk through the shells of every
/// radius up to `d`, if there is one.
pub open spec fn shell_found(d: usize, i: usize) -> Option<(nat, nat)> {
    if exists|j: nat, t: nat| is_shell_place(d, i, j, t) {
        let pair = choose|pair: (nat, nat)| is_shell_place(d, i, pair.0, pair.1);
        Some(pair)
    } else {
        None
    }
}

/// No two shell cells stand at the same place of the walk.
pub proof fn lemma_shell_place_unique(d: usize, i: usize, j1: nat, t1: nat, j2: nat, t2: nat)
    requires
        is_shell_place(d, i, j1, t1),
        is_shell_place(d, i, j2, t2),
    ensures
        j1 == j2,
        t1 == t2,
{
    if j1 < j2 {
        lemma_ring_start_grows(j1 + 1, j2);
        lemma_ring_count_grows(j1, t1 + 1, ring_cells(j1));
        assert(ring_count(j1, t1 + 1) == ring_count(j1, t1) + 1);
        assert(ring_start(j1 + 1) == ring_start(j1) + ring_count(j1, ring_cells(j1)));
    } else if j2 < j1 {
        lemma_ring_start_grows(j2 + 1, j1);
        lemma_ring_count_grows(j2, t2 + 1, ring_cells(j2));
        assert(ring_count(j2, t2 + 1) == ring_count(j2, t2) + 1);
        assert(ring_start(j2 + 1) == ring_start(j2) + ring_count(j2, ring_cells(j2)));
    } else if t1 < t2 {
        lemma_ring_count_grows(j1, t1 + 1, t2);
        assert(ring_count(j1, t1 + 1) == ring_count(j1, t1) + 1);
    } else if t2 < t1 {
        lemma_ring_count_grows(j1, t2 + 1, t1);
        assert(ring_count(j1, t2 + 1) == ring_count(j1, t2) + 1);
    }
}

/// A shell cell that stands at a place of the walk is the one found there.
pub proof fn lemma_shell_found(d: usize, i: usize, j: nat, t: nat)
    requires
        is_shell_place(d, i, j, t),
    ensures
        shell_found(d, i) == Some((j, t)),
{
    let pair = choose|pair: (nat, nat)| is_shell_place(d, i, pair.0, pair.1);
    assert(is_shell_place(d, i, (j, t).0, (j, t).1));
    lemma_shell_place_unique(d, i, j, t, pair.0, pair.1);
}

proof fn lemma_shell_not_found(d: usize, i: usize)
    requires
        ring_start(d as nat + 1) <= i,
    ensures
        shell_found(d, i).is_none(),
{
    assert forall|j: nat, t: nat| !is_shell_place(d, i, j, t) by {
        if is_shell_place(d, i, j, t) {
            lemma_ring_start_grows(j + 1, d as nat + 1);
            lemma_ring_count_grows(j, t + 1, ring_cells(j));
            assert(ring_count(j, t + 1) == ring_count(j, t) + 1);
            assert(ring_start(j + 1) == ring_start(j) + ring_count(j, ring_cells(j)));
        }
    }
}

/// The blocks of a chunk, cell by cell.
pub fn blocks_of<C: Chunk>(chunk: &C) -> (r: Vec<Block>)
    requires
        chunk.wf(),
    ensures
        r@ == chunk.blocks(),
        r@.len() >= 1,
{
    let size: usize = chunk.size();
    let mut out: Vec<Block> = Vec::new();
    let mut i: usize = 0;
    while i < size
        invariant
            i <= size,
            chunk.wf(),
            size == chunk.blocks().len(),
            out@ == chunk.blocks().take(i as int),
        decreases size - i,
    {
        out.push(chunk.block_at(i));
        assert(out@ =~= chunk.blocks().take(i + 1));
        i = i + 1;
    }
    assert(out@ =~= chunk.blocks());
    out
}

/// The run-length encoding of a chunk's blocks.
pub fn encode_chunk<C: Chunk>(chunk: &C) -> (bytes: Vec<u8>)
    requires
        chunk.wf(),
    ensures
        bytes@ == encoded(chunk.blocks()),
        decoded(bytes@) == chunk.blocks(),
        crate::util::rle::well_formed(bytes@),
{
    let blocks: Vec<Block> = blocks_of(chunk);
    encode(blocks.as_slice())
}

/// The positions of a list at which no chunk stands, in the order of the
/// list.
pub open spec fn to_generate(
    chunks: Map<ChunkPosition, ChunkState<ServerChunk>>,
    order: Seq<ChunkPosition>,
) -> Seq<ChunkPosition> {
    order.filter(|p: ChunkPosition| !chunks.contains_key(p))
}

/// The server's side of the world: the chunks it holds and the positions
/// that are to be generated next.
pub struct ServerWorld {
    pub dimension: Dimension<ServerChunk>,
    pub load_chunk_order: VecDeque<ChunkPosition>,
}

/// The positions that the announcements are for, in their order.
pub open spec fn announced(messages: Seq<ChunkActivated>) -> Seq<ChunkPosition> {
    Seq::new(messages.len(), |k: int| messages[k].position)
}

/// The positions that the updates are for, in their order.
pub open spec fn updated(messages: Seq<ChunkUpdated>) -> Seq<ChunkPosition> {
    Seq::new(messages.len(), |k: int| messages[k].position)
}

/// What the first `k + 1` items of a list hold: what the first `k` hold, and
/// the item at `k`, which is none of those if the list holds nothing twice.
proof fn lemma_take_grows(s: Seq<ChunkPosition>, k: int)
    requires
        0 <= k < s.len(),
    ensures
        forall|p: ChunkPosition| s.take(k).contains(p) ==> #[trigger] s.take(k + 1).contains(p),
        s.take(k + 1).contains(s[k]),
        s.no_duplicates() ==> !s.take(k).contains(s[k]),
{
    assert forall|p: ChunkPosition| s.take(k).contains(p) implies #[trigger] s.take(k + 1).contains(
        p,
    ) by {
        let j = s.take(k).index_of(p);
        assert(s.take(k + 1)[j] == p);
    }
    assert(s.take(k + 1)[k] == s[k]);
    if s.no_duplicates() && s.take(k).contains(s[k]) {
        let j = s.take(k).index_of(s[k]);
        assert(s[j] == s[k]);
    }
}

/// Whether the position is one of the list.
fn listed(list: &Vec<ChunkPosition>, p: ChunkPosition) -> (r: bool)
    ensures
        r == list@.contains(p),
{
    let mut i: usize = 0;
    while i < list.len()
        invariant
            i <= list@.len(),
            forall|k: int| 0 <= k < i ==> list@[k] != p,
        decreases list@.len() - i,
    {
        if list[i] == p {
            return true;
        }
        i = i + 1;
    }
    false
}

/// Whether the position waits in the list.
fn waits(list: &VecDeque<ChunkPosition>, p: ChunkPosition) -> (r: bool)
    ensures
        r == list@.contains(p),
{
    let mut i: usize = 0;
    while i < list.len()
        invariant
            i <= list@.len(),
            forall|k: int| 0 <= k < i ==> list@[k] != p,
        decreases list@.len() - i,
    {
        if list[i] == p {
            return true;
        }
        i = i + 1;
    }
    false
}

impl ServerWorld {
    /// The dimension is well formed and no position waits twice to be
    /// generated.
    pub open spec fn wf(&self) -> bool {
        self.dimension.wf() && self.load_chunk_order@.no_duplicates()
    }

    pub fn new() -> (r: ServerWorld)
        ensures
            r.wf(),
            r.dimension.chunks@ == Map::<ChunkPosition, ChunkState<ServerChunk>>::empty(),
            r.load_chunk_order@.len() == 0,
    {
        ServerWorld { dimension: Dimension::new(), load_chunk_order: VecDeque::new() }
    }

    /// Takes the positions that wait to be generated off the list and hands
    /// out one request, at full detail, for each at which no chunk stands,
    /// in the order of the list; each such position is marked as being
    /// generated.
    pub fn start_generation(&mut self) -> (requests: Vec<GenReq>)
        requires
            old(self).wf(),
        ensures
            final(self).wf(),
            final(self).load_chunk_order@.len() == 0,
            requests@.len() == to_generate(
                old(self).dimension.chunks@,
                old(self).load_chunk_order@,
            ).len(),
            forall|k: int|
                0 <= k < requests@.len() ==> #[trigger] requests@[k] == (GenReq {
                    position: to_generate(
                        old(self).dimension.chunks@,
                        old(self).load_chunk_order@,
                    )[k],
                    lod: 0,
                }),
            forall|p: ChunkPosition| #[trigger]
                final(self).dimension.chunks@.contains_key(p)
                    <==> old(self).dimension.chunks@.contains_key(p)
                    || old(self).load_chunk_order@.contains(p),
            forall|p: ChunkPosition| #[trigger]
                final(self).dimension.chunks@.contains_key(p) ==> final(self).dimension.chunks@[p]
                    == (if old(self).dimension.chunks@.contains_key(p) {
                    old(self).dimension.chunks@[p]
                } else {
                    ChunkState::Generating
                }),
            final(self).dimension.blocks_buffer == old(self).dimension.blocks_buffer,
            final(self).dimension.chunk_updated == old(self).dimension.chunk_updated,
            final(self).dimension.chunk_border_changed == old(self).dimension.chunk_border_changed,
            final(self).dimension.chunk_activations == old(self).dimension.chunk_activations,
    {
        let mut order: VecDeque<ChunkPosition> = VecDeque::new();
        std::mem::swap(&mut self.load_chunk_order, &mut order);
        let ghost old_chunks = self.dimension.chunks@;
        let ghost absent = |p: ChunkPosition| !old_chunks.contains_key(p);
        let mut requests: Vec<GenReq> = Vec::new();
        let mut k: usize = 0;
        proof {
            reveal(Seq::filter);
            assert(order@.take(0).filter(absent) =~= Seq::<ChunkPosition>::empty());
        }
        while k < order.len()
            invariant
                k <= order@.len(),
                order@ == old(self).load_chunk_order@,
                order@.no_duplicates(),
                old_chunks == old(self).dimension.chunks@,
                absent == (|p: ChunkPosition| !old_chunks.contains_key(p)),
                self.wf(),
                self.load_chunk_order@.len() == 0,
                requests@.len() == order@.take(k as int).filter(absent).len(),
                forall|a: int|
                    0 <= a < requests@.len() ==> #[trigger] requests@[a] == (GenReq {
                        position: order@.take(k as int).filter(absent)[a],
                        lod: 0,
                    }),
                forall|p: ChunkPosition| #[trigger]
                    self.dimension.chunks@.contains_key(p) <==> old_chunks.contains_key(p)
                        || order@.take(k as int).contains(p),
                forall|p: ChunkPosition| #[trigger]
                    self.dimension.chunks@.contains_key(p) ==> self.dimension.chunks@[p] == (
                    if old_chunks.contains_key(p) {
                        old_chunks[p]
                    } else {
                        ChunkState::Generating
                    }),
                self.dimension.blocks_buffer == old(self).dimension.blocks_buffer,
                self.dimension.chunk_updated == old(self).dimension.chunk_updated,
                self.dimension.chunk_border_changed == old(self).dimension.chunk_border_changed,
                self.dimension.chunk_activations == old(self).dimension.chunk_activations,
            decreases order@.len() - k,
        {
            let position: ChunkPosition = order[k];
            let ghost before = self.dimension.chunks@;
            let ghost handed = requests@;
            proof {
                let t0 = order@.take(k as int);
                let t1 = order@.take(k + 1);
                assert(t1 =~= t0.push(position));
                assert(t1.drop_last() =~= t0);
                reveal(Seq::filter);
                assert(!t0.contains(position)) by {
                    if t0.contains(position) {
                        let j = t0.index_of(position);
                        assert(order@[j] == position);
                    }
                }
                assert forall|p: ChunkPosition| t1.contains(p) <==> t0.contains(p) || p
                    == position by {
                    if t0.contains(p) {
                        let j = t0.index_of(p);
                        assert(t1[j] == p);
                    }
                    if t1.contains(p) {
                        let j = t1.index_of(p);
                        if j < k {
                            assert(t0[j] == p);
                        }
                    }
                    assert(t1[k as int] == position);
                }
            }
            if !self.dimension.chunks.contains(position) {
                requests.push(GenReq { position, lod: 0 });
                self.dimension.chunks.insert(position, ChunkState::Generating);
            }
            proof {
                let t0 = order@.take(k as int);
                let t1 = order@.take(k + 1);
                assert forall|a: int| 0 <= a < requests@.len() implies #[trigger] requests@[a]
                    == (GenReq { position: t1.filter(absent)[a], lod: 0 }) by {
                    if a < handed.len() {
                        assert(requests@[a] == handed[a]);
                    }
                }
                assert forall|p: ChunkPosition| #[trigger]
                    self.dimension.chunks@.contains_key(p) implies self.dimension.chunks@[p].wf() by {
                    if p != position {
                        assert(before.contains_key(p));
                    }
                }
                assert forall|p: ChunkPosition| #[trigger]
                    self.dimension.chunks@.contains_key(p) <==> old_chunks.contains_key(p)
                        || t1.contains(p) by {
                    assert(before.contains_key(p) <==> old_chunks.contains_key(p) || t0.contains(
                        p,
                    ));
                }
                assert forall|p: ChunkPosition| #[trigger]
                    self.dimension.chunks@.contains_key(p) implies self.dimension.chunks@[p] == (
                if old_chunks.contains_key(p) {
                    old_chunks[p]
                } else {
                    ChunkState::Generating
                }) by {
                    if p != position {
                        assert(before.contains_key(p));
                    }
                }
            }
            k = k + 1;
        }
        proof {
            assert(order@.take(order@.len() as int) =~= order@);
        }
        requests
    }

    /// Takes a generated chunk: it goes into stasis at its position, the
    /// edits that waited for it are written into it and leave the buffer, and
    /// the position is marked as updated.
    pub fn apply_generated(&mut self, resp: GenResp)
        requires
            old(self).wf(),
            resp.chunk.wf(),
        ensures
            final(self).wf(),
            final(self).dimension.chunks@.dom() == old(self).dimension.chunks@.dom().insert(
                resp.position,
            ),
            forall|q: ChunkPosition|
                q != resp.position && old(self).dimension.chunks@.contains_key(q)
                    ==> #[trigger] final(self).dimension.chunks@[q] == old(self).dimension.chunks@[q],
            final(self).dimension.chunks@[resp.position] is Stasis,
            final(self).dimension.chunks@[resp.position].held().lod() == resp.chunk.lod(),
            final(self).dimension.chunks@[resp.position].held().blocks() == edited_blocks(
                resp.chunk.blocks(),
                resp.chunk.lod(),
                resp.position,
                old(self).dimension.blocks_buffer@,
            ),
            final(self).dimension.blocks_buffer@ == waiting_elsewhere(
                old(self).dimension.blocks_buffer@,
                resp.position,
            ),
            final(self).dimension.chunk_updated@ == old(self).dimension.chunk_updated@.insert(
                resp.position,
            ),
            final(self).load_chunk_order == old(self).load_chunk_order,
            final(self).dimension.chunk_border_changed == old(self).dimension.chunk_border_changed,
            final(self).dimension.chunk_activations == old(self).dimension.chunk_activations,
    {
        let GenResp { position, chunk, lod } = resp;
        self.dimension.take_in(position, chunk);
    }

    /// Makes every chunk in stasis active and records it among the tick's
    /// activations.
    pub fn activate(&mut self)
        requires
            old(self).wf(),
        ensures
            final(self).wf(),
            final(self).dimension.chunks@.dom() == old(self).dimension.chunks@.dom(),
            forall|p: ChunkPosition| #[trigger]
                old(self).dimension.chunks@.contains_key(p) ==> final(self).dimension.chunks@[p]
                    == (if old(self).dimension.chunks@[p] is Stasis {
                    ChunkState::Active { chunk: old(self).dimension.chunks@[p].held() }
                } else {
                    old(self).dimension.chunks@[p]
                }),
            forall|p: ChunkPosition| #[trigger]
                final(self).dimension.chunk_activations@.contains(p)
                    <==> old(self).dimension.chunk_activations@.contains(p)
                    || (old(self).dimension.chunks@.contains_key(p)
                    && old(self).dimension.chunks@[p] is Stasis),
            final(self).load_chunk_order == old(self).load_chunk_order,
            final(self).dimension.blocks_buffer == old(self).dimension.blocks_buffer,
            final(self).dimension.chunk_updated == old(self).dimension.chunk_updated,
            final(self).dimension.chunk_border_changed == old(self).dimension.chunk_border_changed,
    {
        let keys: Vec<ChunkPosition> = self.dimension.chunks.keys();
        let mut k: usize = 0;
        while k < keys.len()
            invariant
                k <= keys@.len(),
                keys@.no_duplicates(),
                forall|p: ChunkPosition|
                    keys@.contains(p) <==> old(self).dimension.chunks@.contains_key(p),
                self.wf(),
                self.dimension.chunks@.dom() == old(self).dimension.chunks@.dom(),
                forall|p: ChunkPosition| #[trigger]
                    old(self).dimension.chunks@.contains_key(p) ==> self.dimension.chunks@[p] == (
                    if old(self).dimension.chunks@[p] is Stasis && keys@.take(k as int).contains(
                        p,
                    ) {
                        ChunkState::Active { chunk: old(self).dimension.chunks@[p].held() }
                    } else {
                        old(self).dimension.chunks@[p]
                    }),
                forall|p: ChunkPosition| #[trigger]
                    self.dimension.chunk_activations@.contains(p)
                        <==> old(self).dimension.chunk_activations@.contains(p)
                        || (old(self).dimension.chunks@.contains_key(p)
                        && old(self).dimension.chunks@[p] is Stasis
                        && keys@.take(k as int).contains(p)),
                self.load_chunk_order == old(self).load_chunk_order,
                self.dimension.blocks_buffer == old(self).dimension.blocks_buffer,
                self.dimension.chunk_updated == old(self).dimension.chunk_updated,
                self.dimension.chunk_border_changed == old(self).dimension.chunk_border_changed,
            decreases keys@.len() - k,
        {
            let position: ChunkPosition = keys[k];
            proof {
                assert(keys@.contains(position));
                assert(old(self).dimension.chunks@.contains_key(position));
                assert(!keys@.take(k as int).contains(position)) by {
                    if keys@.take(k as int).contains(position) {
                        let j = keys@.take(k as int).index_of(position);
                        assert(keys@[j] == position);
                    }
                }
                assert forall|p: ChunkPosition|
                    keys@.take(k + 1).contains(p) <==> keys@.take(k as int).contains(p) || p
                        == position by {
                    let t0 = keys@.take(k as int);
                    let t1 = keys@.take(k + 1);
                    assert(t1 =~= t0.push(position));
                    if t0.contains(p) {
                        let j = t0.index_of(p);
                        assert(t1[j] == p);
                    }
                    if t1.contains(p) {
                        let j = t1.index_of(p);
                        if j < k {
                            assert(t0[j] == p);
                        }
                    }
                    assert(t1[k as int] == position);
                }
            }
            let in_stasis: bool = match self.dimension.chunks.get(position) {
                Some(ChunkState::Stasis { .. }) => true,
                _ => false,
            };
            if in_stasis {
                let ghost before = self.dimension.chunks@;
                match self.dimension.chunks.remove(position) {
                    Some(ChunkState::Stasis { chunk }) => {
                        self.dimension.chunks.insert(position, ChunkState::Active { chunk });
                    },
                    _ => {},
                }
                self.dimension.chunk_activations.insert(position);
                proof {
                    assert(self.dimension.chunks@.dom() =~= old(self).dimension.chunks@.dom());
                    assert forall|p: ChunkPosition| #[trigger]
                        self.dimension.chunks@.contains_key(p) implies self.dimension.chunks@[p].wf() by {
                        assert(before.contains_key(p));
                    }
                }
            }
            k = k + 1;
        }
        proof {
            assert(keys@.take(keys@.len() as int) =~= keys@);
        }
    }

    /// The message that hands the chunk at `p` to a client, if the chunk is
    /// active.
    pub fn activation_message(&self, p: ChunkPosition) -> (r: Option<ChunkActivated>)
        requires
            self.wf(),
        ensures
            match r {
                Some(m) => self.dimension.chunks@.contains_key(p)
                    && self.dimension.chunks@[p] is Active
                    && m.position == p && m.lod == self.dimension.chunks@[p].held().lod() && m.bytes@ == encoded(
                    self.dimension.chunks@[p].held().blocks(),
                ) && decoded(m.bytes@) == self.dimension.chunks@[p].held().blocks(),
                None => !(self.dimension.chunks@.contains_key(p)
                    && self.dimension.chunks@[p] is Active),
            },
    {
        match self.dimension.chunks.get(p) {
            Some(ChunkState::Active { chunk }) => Some(
                ChunkActivated { position: p, lod: chunk.lod_level(), bytes: encode_chunk(chunk) },
            ),
            _ => None,
        }
    }

    /// The messages that hand every active chunk to a client that has just
    /// connected, in the order in which the chunks are kept.
    pub fn snapshot(&self) -> (r: Vec<ChunkActivated>)
        requires
            self.wf(),
        ensures
            forall|k: int|
                0 <= k < r@.len() ==> {
                    let m = #[trigger] r@[k];
                    &&& self.dimension.chunks@.contains_key(m.position)
                    &&& self.dimension.chunks@[m.position] is Active
                    &&& m.lod == self.dimension.chunks@[m.position].held().lod()
                    &&& m.bytes@ == encoded(self.dimension.chunks@[m.position].held().blocks())
                },
            forall|p: ChunkPosition|
                self.dimension.chunks@.contains_key(p) && self.dimension.chunks@[p] is Active
                    ==> exists|k: int| 0 <= k < r@.len() && (#[trigger] r@[k]).position == p,
            announced(r@).no_duplicates(),
    {
        let keys: Vec<ChunkPosition> = self.dimension.chunks.keys();
        let mut out: Vec<ChunkActivated> = Vec::new();
        let mut k: usize = 0;
        while k < keys.len()
            invariant
                k <= keys@.len(),
                self.wf(),
                forall|p: ChunkPosition| keys@.contains(p)
                    <==> self.dimension.chunks@.contains_key(p),
                keys@.no_duplicates(),
                announced(out@).no_duplicates(),
                forall|a: int|
                    0 <= a < out@.len() ==> keys@.take(k as int).contains(
                        (#[trigger] out@[a]).position,
                    ),
                forall|a: int|
                    0 <= a < out@.len() ==> {
                        let m = #[trigger] out@[a];
                        &&& self.dimension.chunks@.contains_key(m.position)
                        &&& self.dimension.chunks@[m.position] is Active
                        &&& m.lod == self.dimension.chunks@[m.position].held().lod()
                        &&& m.bytes@ == encoded(self.dimension.chunks@[m.position].held().blocks())
                    },
                forall|j: int|
                    0 <= j < k && self.dimension.chunks@[keys@[j]] is Active ==> exists|a: int|
                        0 <= a < out@.len() && (#[trigger] out@[a]).position == keys@[j],
            decreases keys@.len() - k,
        {
            let position: ChunkPosition = keys[k];
            let ghost before = out@;
            proof {
                lemma_take_grows(keys@, k as int);
            }
            match self.activation_message(position) {
                Some(m) => {
                    out.push(m);
                    proof {
                        assert(out@[before.len() as int].position == position);
                        assert(announced(out@) =~= announced(before).push(position));
                        assert forall|i: int, j: int|
                            0 <= i < out@.len() && 0 <= j < out@.len() && i
                                != j implies announced(out@)[i] != announced(out@)[j] by {
                            if i < before.len() && j < before.len() {
                                assert(announced(before)[i] != announced(before)[j]);
                            } else if i < before.len() {
                                assert(keys@.take(k as int).contains(before[i].position));
                            } else {
                                assert(keys@.take(k as int).contains(before[j].position));
                            }
                        }
                        assert forall|j: int|
                            0 <= j < k + 1
                                && self.dimension.chunks@[keys@[j]] is Active implies exists|
                            a: int,
                        |
                            0 <= a < out@.len() && (#[trigger] out@[a]).position == keys@[j] by {
                            if j < k {
                                let a = choose|a: int|
                                    0 <= a < before.len() && (#[trigger] before[a]).position
                                        == keys@[j];
                                assert(out@[a].position == keys@[j]);
                            }
                        }
                    }
                },
                None => {
                    proof {
                        assert(keys@.contains(position));
                    }
                },
            }
            k = k + 1;
        }
        proof {
            assert forall|p: ChunkPosition|
                self.dimension.chunks@.contains_key(p)
                    && self.dimension.chunks@[p] is Active implies exists|
                a: int,
            |
                0 <= a < out@.len() && (#[trigger] out@[a]).position == p by {
                assert(keys@.contains(p));
                let j = keys@.index_of(p);
                assert(keys@[j] == p);
            }
        }
        out
    }

    /// Empties the tick's activations and makes the message for each chunk
    /// among them that is active. The result holds the activations, in the
    /// order in which they were noted, and the messages, in that order too.
    pub fn chunk_activations(&mut self) -> (r: (Vec<ChunkPosition>, Vec<ChunkActivated>))
        requires
            old(self).wf(),
        ensures
            final(self).wf(),
            final(self).dimension.chunks == old(self).dimension.chunks,
            final(self).dimension.chunk_activations@ == Set::<ChunkPosition>::empty(),
            final(self).dimension.chunk_updated == old(self).dimension.chunk_updated,
            final(self).dimension.blocks_buffer == old(self).dimension.blocks_buffer,
            final(self).dimension.chunk_border_changed == old(self).dimension.chunk_border_changed,
            final(self).load_chunk_order == old(self).load_chunk_order,
            r.0@.to_set() == old(self).dimension.chunk_activations@,
            r.0@.no_duplicates(),
            forall|k: int|
                0 <= k < r.1@.len() ==> {
                    let m = #[trigger] r.1@[k];
                    &&& r.0@.contains(m.position)
                    &&& old(self).dimension.chunks@.contains_key(m.position)
                    &&& old(self).dimension.chunks@[m.position] is Active
                    &&& m.lod == old(self).dimension.chunks@[m.position].held().lod()
                    &&& m.bytes@ == encoded(old(self).dimension.chunks@[m.position].held().blocks())
                },
            forall|p: ChunkPosition|
                r.0@.contains(p) && old(self).dimension.chunks@.contains_key(p)
                    && old(self).dimension.chunks@[p] is Active ==> exists|k: int|
                    0 <= k < r.1@.len() && (#[trigger] r.1@[k]).position == p,
            announced(r.1@).no_duplicates(),
    {
        let positions: Vec<ChunkPosition> = self.dimension.chunk_activations.drain();
        let mut out: Vec<ChunkActivated> = Vec::new();
        let mut k: usize = 0;
        while k < positions.len()
            invariant
                k <= positions@.len(),
                self.wf(),
                self.dimension.chunks == old(self).dimension.chunks,
                positions@.no_duplicates(),
                announced(out@).no_duplicates(),
                forall|a: int|
                    0 <= a < out@.len() ==> positions@.take(k as int).contains(
                        (#[trigger] out@[a]).position,
                    ),
                forall|a: int|
                    0 <= a < out@.len() ==> {
                        let m = #[trigger] out@[a];
                        &&& positions@.contains(m.position)
                        &&& self.dimension.chunks@.contains_key(m.position)
                        &&& self.dimension.chunks@[m.position] is Active
                        &&& m.lod == self.dimension.chunks@[m.position].held().lod()
                        &&& m.bytes@ == encoded(self.dimension.chunks@[m.position].held().blocks())
                    },
                forall|j: int|
                    0 <= j < k && self.dimension.chunks@.contains_key(positions@[j])
                        && self.dimension.chunks@[positions@[j]] is Active ==> exists|a: int|
                        0 <= a < out@.len() && (#[trigger] out@[a]).position == positions@[j],
            decreases positions@.len() - k,
        {
            let position: ChunkPosition = positions[k];
            let ghost before = out@;
            proof {
                lemma_take_grows(positions@, k as int);
            }
            match self.activation_message(position) {
                Some(m) => {
                    out.push(m);
                    proof {
                        assert(positions@.contains(position));
                        assert(out@[before.len() as int].position == position);
                        assert(announced(out@) =~= announced(before).push(position));
                        assert forall|i: int, j: int|
                            0 <= i < out@.len() && 0 <= j < out@.len() && i
                                != j implies announced(out@)[i] != announced(out@)[j] by {
                            if i < before.len() && j < before.len() {
                                assert(announced(before)[i] != announced(before)[j]);
                            } else if i < before.len() {
                                assert(positions@.take(k as int).contains(before[i].position));
                            } else {
                                assert(positions@.take(k as int).contains(before[j].position));
                            }
                        }
                        assert forall|j: int|
                            0 <= j < k + 1 && self.dimension.chunks@.contains_key(positions@[j])
                                && self.dimension.chunks@[positions@[j]] is Active implies exists|
                            a: int,
                        |
                            0 <= a < out@.len()
                                && (#[trigger] out@[a]).position == positions@[j] by {
                            if j < k {
                                let a = choose|a: int|
                                    0 <= a < before.len() && (#[trigger] before[a]).position
                                        == positions@[j];
                                assert(out@[a].position == positions@[j]);
                            }
                        }
                    }
                },
                None => {},
            }
            k = k + 1;
        }
        proof {
            assert forall|p: ChunkPosition|
                positions@.contains(p) && self.dimension.chunks@.contains_key(p)
                    && self.dimension.chunks@[p] is Active implies exists|a: int|
                0 <= a < out@.len() && (#[trigger] out@[a]).position == p by {
                let j = positions@.index_of(p);
                assert(positions@[j] == p);
            }
        }
        (positions, out)
    }

    /// Empties the tick's updates and makes the message for each chunk
    /// among them that is active and was not activated in this tick: a
    /// chunk just activated went out whole already.
    pub fn chunk_updates(&mut self, activated: &Vec<ChunkPosition>) -> (r: Vec<ChunkUpdated>)
        requires
            old(self).wf(),
        ensures
            final(self).wf(),
            final(self).dimension.chunks == old(self).dimension.chunks,
            final(self).dimension.chunk_updated@ == Set::<ChunkPosition>::empty(),
            final(self).dimension.chunk_activations == old(self).dimension.chunk_activations,
            final(self).dimension.blocks_buffer == old(self).dimension.blocks_buffer,
            final(self).dimension.chunk_border_changed == old(self).dimension.chunk_border_changed,
            final(self).load_chunk_order == old(self).load_chunk_order,
            forall|k: int|
                0 <= k < r@.len() ==> {
                    let m = #[trigger] r@[k];
                    &&& old(self).dimension.chunk_updated@.contains(m.position)
                    &&& !activated@.contains(m.position)
                    &&& old(self).dimension.chunks@.contains_key(m.position)
                    &&& old(self).dimension.chunks@[m.position] is Active
                    &&& m.bytes@ == encoded(old(self).dimension.chunks@[m.position].held().blocks())
                    &&& decoded(m.bytes@) == old(self).dimension.chunks@[m.position].held().blocks()
                },
            forall|p: ChunkPosition|
                old(self).dimension.chunk_updated@.contains(p) && !activated@.contains(p)
                    && old(self).dimension.chunks@.contains_key(p)
                        && old(self).dimension.chunks@[p] is Active
                    ==> exists|k: int| 0 <= k < r@.len() && (#[trigger] r@[k]).position == p,
            updated(r@).no_duplicates(),
    {
        let positions: Vec<ChunkPosition> = self.dimension.chunk_updated.drain();
        let mut out: Vec<ChunkUpdated> = Vec::new();
        let mut k: usize = 0;
        while k < positions.len()
            invariant
                k <= positions@.len(),
                self.wf(),
                self.dimension.chunks == old(self).dimension.chunks,
                positions@.to_set() == old(self).dimension.chunk_updated@,
                positions@.no_duplicates(),
                updated(out@).no_duplicates(),
                forall|a: int|
                    0 <= a < out@.len() ==> positions@.take(k as int).contains(
                        (#[trigger] out@[a]).position,
                    ),
                forall|a: int|
                    0 <= a < out@.len() ==> {
                        let m = #[trigger] out@[a];
                        &&& positions@.contains(m.position)
                        &&& !activated@.contains(m.position)
                        &&& self.dimension.chunks@.contains_key(m.position)
                        &&& self.dimension.chunks@[m.position] is Active
                        &&& m.bytes@ == encoded(self.dimension.chunks@[m.position].held().blocks())
                        &&& decoded(m.bytes@) == self.dimension.chunks@[m.position].held().blocks()
                    },
                forall|j: int|
                    0 <= j < k && !activated@.contains(positions@[j])
                        && self.dimension.chunks@.contains_key(positions@[j])
                        && self.dimension.chunks@[positions@[j]] is Active ==> exists|a: int|
                        0 <= a < out@.len() && (#[trigger] out@[a]).position == positions@[j],
            decreases positions@.len() - k,
        {
            let position: ChunkPosition = positions[k];
            let ghost before = out@;
            proof {
                lemma_take_grows(positions@, k as int);
            }
            if !listed(activated, position) {
                match self.activation_message(position) {
                    Some(m) => {
                        out.push(ChunkUpdated { position, bytes: m.bytes });
                        proof {
                            assert(positions@.contains(position));
                            assert(out@[before.len() as int].position == position);
                            assert(updated(out@) =~= updated(before).push(position));
                            assert forall|i: int, j: int|
                                0 <= i < out@.len() && 0 <= j < out@.len() && i
                                    != j implies updated(out@)[i] != updated(out@)[j] by {
                                if i < before.len() && j < before.len() {
                                    assert(updated(before)[i] != updated(before)[j]);
                                } else if i < before.len() {
                                    assert(positions@.take(k as int).contains(before[i].position));
                                } else {
                                    assert(positions@.take(k as int).contains(before[j].position));
                                }
                            }
                            assert forall|j: int|
                                0 <= j < k + 1 && !activated@.contains(positions@[j])
                                    && self.dimension.chunks@.contains_key(positions@[j])
                                    && self.dimension.chunks@[positions@[j]] is Active implies exists|
                                a: int,
                            |
                                0 <= a < out@.len() && (#[trigger] out@[a]).position
                                    == positions@[j] by {
                                if j < k {
                                    let a = choose|a: int|
                                        0 <= a < before.len() && (#[trigger] before[a]).position
                                            == positions@[j];
                                    assert(out@[a].position == positions@[j]);
                                }
                            }
                        }
                    },
                    None => {},
                }
            }
            k = k + 1;
        }
        proof {
            assert forall|p: ChunkPosition|
                old(self).dimension.chunk_updated@.contains(p) && !activated@.contains(p)
                    && self.dimension.chunks@.contains_key(p)
                        && self.dimension.chunks@[p] is Active implies exists|
                a: int,
            |
                0 <= a < out@.len() && (#[trigger] out@[a]).position == p by {
                assert(positions@.to_set().contains(p));
                assert(positions@.contains(p));
                let j = positions@.index_of(p);
                assert(positions@[j] == p);
            }
            assert forall|a: int| 0
                <= a < out@.len() implies old(self).dimension.chunk_updated@.contains((#[trigger] out@[a]).position) by {
                assert(positions@.to_set().contains(out@[a].position));
            }
        }
        out
    }
}

/// The position that the walk's place `i` asks for around the chunk at
/// `center`, if the walk holds the place and the machine can hold the
/// position.
pub open spec fn needed_at(d: usize, center: ChunkPosition, i: usize) -> Option<ChunkPosition> {
    match shell_found(d, i) {
        Some((j, t)) => {
            let off = ring_cell(j, t);
            let p = (center.x + off.0, center.y + off.1, center.z + off.2);
            if isize::MIN <= p.0 <= isize::MAX && isize::MIN <= p.1 <= isize::MAX && isize::MIN
                <= p.2 <= isize::MAX {
                Some(ChunkPosition { x: p.0 as isize, y: p.1 as isize, z: p.2 as isize })
            } else {
                None
            }
        },
        None => None,
    }
}

/// The positions that the places `lo` up to `hi` of the walk add to the
/// list `listed` of chunks to generate: those at which no chunk stands and
/// which do not wait in the list yet, each once, in the order of the walk.
pub open spec fn needed_between(
    chunks: Map<ChunkPosition, ChunkState<ServerChunk>>,
    listed: Seq<ChunkPosition>,
    d: usize,
    center: ChunkPosition,
    lo: usize,
    hi: usize,
) -> Seq<ChunkPosition>
    decreases hi,
{
    if hi <= lo {
        Seq::empty()
    } else {
        let rest = needed_between(chunks, listed, d, center, lo, (hi - 1) as usize);
        match needed_at(d, center, (hi - 1) as usize) {
            Some(p) => if chunks.contains_key(p) || listed.contains(p) || rest.contains(p) {
                rest
            } else {
                rest.push(p)
            },
            None => rest,
        }
    }
}

/// Whether the walk through the shells of every radius up to `d` is over at
/// place `i`: the shells hold no more than `i` offsets, or the machine
/// cannot count farther.
pub open spec fn walk_ended(d: usize, i: usize) -> bool {
    ring_start(d as nat + 1) <= i || i == usize::MAX
}

/// A place of the walk that holds a shell cell lies before the walk's end.
pub proof fn lemma_shell_place_inside(d: usize, i: usize, j: nat, t: nat)
    requires
        is_shell_place(d, i, j, t),
    ensures
        i < ring_start(d as nat + 1),
{
    lemma_ring_start_grows(j + 1, d as nat + 1);
    lemma_ring_count_grows(j, t + 1, ring_cells(j));
    assert(ring_count(j, t + 1) == ring_count(j, t) + 1);
    assert(ring_start(j + 1) == ring_start(j) + ring_count(j, ring_cells(j)));
}

/// What is in one of two lists is in the two put together, and nothing
/// else is.
proof fn lemma_contains_either(a: Seq<ChunkPosition>, b: Seq<ChunkPosition>, p: ChunkPosition)
    ensures
        (a + b).contains(p) <==> a.contains(p) || b.contains(p),
{
    if a.contains(p) {
        let k = a.index_of(p);
        assert((a + b)[k] == p);
    }
    if b.contains(p) {
        let k = b.index_of(p);
        assert((a + b)[a.len() + k] == p);
    }
    if (a + b).contains(p) {
        let k = (a + b).index_of(p);
        if k < a.len() {
            assert(a[k] == p);
        } else {
            assert(b[k - a.len()] == p);
        }
    }
}

/// The cell that a change aims at on a ray: the last free cell for a
/// block to be placed, the cell hit for one to be broken.
pub open spec fn change_target(change: Change) -> Target {
    match change {
        Change::Place(_) => Target::Backstep,
        Change::Break(_) => Target::Position,
    }
}

/// The edit that a change makes along a finished ray, if the ray hit a
/// block and a chunk with data holds the cell aimed at.
pub open spec fn edit_of(this: &Dimension<ServerChunk>, change: Change, ray: Ray) -> Option<Edit> {
    match hit_of(this, ray) {
        Some(h) => {
            let cell = match change_target(change) {
                Target::Position => h.position,
                Target::Backstep => h.back_step,
            };
            if this.present_at(chunk_of_cell(cell)) {
                Some((chunk_of_cell(cell), local_of_cell(cell), change.written()))
            } else {
                None
            }
        },
        None => None,
    }
}

/// The edits that the changes make, in the order of the changes.
pub open spec fn edits_of(this: &Dimension<ServerChunk>, changes: Seq<(Change, Ray)>) -> Seq<Edit>
    decreases changes.len(),
{
    if changes.len() == 0 {
        Seq::empty()
    } else {
        let rest = edits_of(this, changes.drop_last());
        match edit_of(this, changes.last().0, changes.last().1) {
            Some(e) => rest.push(e),
            None => rest,
        }
    }
}

impl ServerWorld {
    /// One loader's share of a tick's walk through the shells around the
    /// chunk at `center`. A loader at rest whose entity moved far starts the
    /// walk anew. A walk under way takes up to `MAX_NEEDED_PER_TICK` places,
    /// nearest first; each asks for the position at its offset from `center`,
    /// and the position joins the list of chunks to generate if no chunk
    /// stands there and it does not wait in the list already. A walk found at
    /// its end comes to rest.
    pub fn load(&mut self, loader: &mut Loader, center: ChunkPosition, moved_far: bool)
        requires
            old(self).wf(),
            old(loader).wf(),
        ensures
            final(self).wf(),
            final(self).dimension == old(self).dimension,
            final(loader).wf(),
            final(loader).load_distance == old(loader).load_distance,
            ({
                let restarted = !old(loader).recalculate_needed_chunks && moved_far;
                let start = if restarted {
                    0
                } else {
                    old(loader).next_needed
                };
                let walking = restarted || old(loader).recalculate_needed_chunks;
                let d = old(loader).load_distance;
                &&& !walking ==> final(loader).next_needed == start && !final(loader).recalculate_needed_chunks && final(self).load_chunk_order == old(self).load_chunk_order
                &&& walking ==> {
                    &&& start <= final(loader).next_needed <= start + MAX_NEEDED_PER_TICK
                    &&& forall|i: usize|
                        start <= i < final(loader).next_needed ==> !#[trigger] walk_ended(d, i)
                    &&& final(loader).recalculate_needed_chunks == (final(loader).next_needed
                        == start + MAX_NEEDED_PER_TICK)
                    &&& !final(loader).recalculate_needed_chunks ==> walk_ended(
                        d,
                        final(loader).next_needed,
                    )
                    &&& final(self).load_chunk_order@ == old(self).load_chunk_order@
                        + needed_between(
                        old(self).dimension.chunks@,
                        old(self).load_chunk_order@,
                        d,
                        center,
                        start,
                        final(loader).next_needed,
                    )
                }
            }),
    {
        if !loader.recalculate_needed_chunks && moved_far {
            loader.restart();
        }
        if !loader.recalculate_needed_chunks {
            return ;
        }
        let ghost start = loader.next_needed;
        let ghost d = loader.load_distance;
        let ghost chunks = self.dimension.chunks@;
        let ghost listed_before = self.load_chunk_order@;
        let mut a: usize = 0;
        assert(self.load_chunk_order@ + Seq::<ChunkPosition>::empty() =~= self.load_chunk_order@);
        while a < MAX_NEEDED_PER_TICK
            invariant
                a <= MAX_NEEDED_PER_TICK,
                self.wf(),
                self.dimension == old(self).dimension,
                chunks == old(self).dimension.chunks@,
                listed_before == old(self).load_chunk_order@,
                loader.wf(),
                loader.load_distance == d,
                d == old(loader).load_distance,
                loader.recalculate_needed_chunks,
                loader.next_needed == start + a,
                old(loader).recalculate_needed_chunks || moved_far,
                start == (if !old(loader).recalculate_needed_chunks && moved_far {
                    0
                } else {
                    old(loader).next_needed
                }),
                forall|i: usize| start <= i < loader.next_needed ==> !#[trigger] walk_ended(d, i),
                self.load_chunk_order@ == listed_before + needed_between(
                    chunks,
                    listed_before,
                    d,
                    center,
                    start,
                    loader.next_needed,
                ),
            decreases MAX_NEEDED_PER_TICK - a,
        {
            let i: usize = loader.next_needed;
            if i == usize::MAX {
                loader.recalculate_needed_chunks = false;
                return ;
            }
            let place: Option<(usize, usize)> = shell_find(loader.load_distance, i);
            let (j, t): (usize, usize) = match place {
                Some(pair) => pair,
                None => {
                    loader.recalculate_needed_chunks = false;
                    return ;
                },
            };
            proof {
                lemma_shell_found(d, i, j as nat, t as nat);
                lemma_shell_place_inside(d, i, j as nat, t as nat);
            }
            let off: ChunkPosition = shell_cell(j, t, Ghost(d));
            let ghost rest = needed_between(chunks, listed_before, d, center, start, i);
            let ghost order = self.load_chunk_order@;
            loader.next_needed = i + 1;
            match center.offset(off.x, off.y, off.z) {
                Some(p) => {
                    assert(needed_at(d, center, i) == Some(p));
                    proof {
                        lemma_contains_either(listed_before, rest, p);
                    }
                    if !self.dimension.chunks.contains(p) && !waits(&self.load_chunk_order, p) {
                        self.load_chunk_order.push_back(p);
                        proof {
                            assert(self.load_chunk_order@ =~= listed_before + rest.push(p));
                            assert forall|x: int, y: int|
                                0 <= x < self.load_chunk_order@.len() && 0 <= y
                                    < self.load_chunk_order@.len() && x
                                    != y implies self.load_chunk_order@[x]
                                != self.load_chunk_order@[y] by {
                                if x < order.len() && y < order.len() {
                                    assert(order[x] != order[y]);
                                } else if x < order.len() {
                                    assert(order.contains(order[x]));
                                } else {
                                    assert(order.contains(order[y]));
                                }
                            }
                        }
                    }
                },
                None => {
                    assert(needed_at(d, center, i).is_none());
                },
            }
            a = a + 1;
        }
    }

    /// Carries out the changes that entities asked for. Each change comes
    /// with the finished ray along which its entity looks; a change whose ray
    /// hit a block, and whose target cell lies in a chunk with data, writes
    /// its block there. All rays are read before any block is written. The
    /// result says for each change whether it wrote.
    pub fn make_changes(&mut self, changes: Vec<(Change, Ray)>) -> (applied: Vec<bool>)
        requires
            old(self).wf(),
        ensures
            final(self).wf(),
            final(self).load_chunk_order == old(self).load_chunk_order,
            applied@.len() == changes@.len(),
            forall|k: int|
                0 <= k < changes@.len() ==> #[trigger] applied@[k] == edit_of(
                    &old(self).dimension,
                    changes@[k].0,
                    changes@[k].1,
                ).is_some(),
            edits_applied(
                &old(self).dimension,
                &final(self).dimension,
                edits_of(&old(self).dimension, changes@),
            ),
    {
        let mut waiting: Vec<(Change, Ray)> = changes;
        let ghost all = waiting@;
        let count: usize = waiting.len();
        let mut edits: Vec<Edit> = Vec::new();
        let mut applied: Vec<bool> = Vec::new();
        let mut k: usize = 0;
        proof {
            assert(all.skip(0) =~= all);
        }
        while waiting.len() > 0
            invariant
                k + waiting@.len() == count,
                count == all.len(),
                all == changes@,
                waiting@ == all.skip(k as int),
                self.wf(),
                *self == *old(self),
                applied@.len() == k,
                forall|a: int|
                    0 <= a < k ==> #[trigger] applied@[a] == edit_of(
                        &self.dimension,
                        all[a].0,
                        all[a].1,
                    ).is_some(),
                edits@ == edits_of(&self.dimension, all.take(k as int)),
            decreases waiting@.len(),
        {
            let (change, ray): (Change, Ray) = waiting.remove(0);
            proof {
                assert((change, ray) == all[k as int]);
                assert(waiting@ =~= all.skip(k + 1));
                assert(all.take(k + 1).drop_last() =~= all.take(k as int));
                assert(all.take(k + 1).last() == all[k as int]);
            }
            let target: Target = match change {
                Change::Place(_) => Target::Backstep,
                Change::Break(_) => Target::Position,
            };
            match raycast(&self.dimension, target, ray) {
                Some((chunk, local)) => {
                    edits.push((chunk, local, change.block()));
                    applied.push(true);
                },
                None => {
                    applied.push(false);
                },
            }
            k = k + 1;
        }
        proof {
            assert(all.take(count as int) =~= all);
        }
        self.dimension.set_blocks(edits.as_slice());
        applied
    }
}

/// What a run of edits leaves in the chunks and in the buffer of a
/// dimension: each chunk with data holds its old blocks with the edits for
/// it written in order, no chunk comes, goes or changes its state, and an
/// edit for a position without data waits in the buffer.
pub open spec fn edits_written(
    before: &Dimension<ServerChunk>,
    after: &Dimension<ServerChunk>,
    edits: Seq<Edit>,
) -> bool {
    &&& after.chunks@.dom() == before.chunks@.dom()
    &&& forall|p: ChunkPosition| #[trigger]
        before.chunks@.contains_key(p) ==> after.chunks@[p].same_tag(before.chunks@[p])
    &&& forall|p: ChunkPosition| #[trigger]
        before.present_at(p) ==> after.chunks@[p].held().lod() == before.chunks@[p].held().lod()
            && after.chunks@[p].held().blocks() == edited_blocks(
            before.chunks@[p].held().blocks(),
            before.chunks@[p].held().lod(),
            p,
            edits,
        )
    &&& forall|e: Edit| #[trigger]
        after.blocks_buffer@.contains(e) <==> before.blocks_buffer@.contains(e) || (
        !before.present_at(e.0) && edits.contains(e))
    &&& after.chunk_border_changed == before.chunk_border_changed
}

/// Whether the chunk at `p` is owed an announcement in a tick that starts in
/// `before`: it was activated since the last tick and is active.
pub open spec fn announcement_owed(before: &Dimension<ServerChunk>, p: ChunkPosition) -> bool {
    &&& before.chunk_activations@.contains(p)
    &&& before.chunks@.contains_key(p)
    &&& before.chunks@[p] is Active
}

/// Whether the chunk at `p` is owed an update in a tick that starts in
/// `before` and carries out `edits`: it is active, was not activated since
/// the last tick, and was updated since then or is named by an edit.
pub open spec fn update_owed(
    before: &Dimension<ServerChunk>,
    edits: Seq<Edit>,
    p: ChunkPosition,
) -> bool {
    &&& before.chunks@.contains_key(p)
    &&& before.chunks@[p] is Active
    &&& !before.chunk_activations@.contains(p)
    &&& (before.chunk_updated@.contains(p) || names_chunk(edits, p))
}

/// Whether one of the announcements is for the chunk at `p`.
pub open spec fn announces(messages: Seq<ChunkActivated>, p: ChunkPosition) -> bool {
    exists|k: int| 0 <= k < messages.len() && (#[trigger] messages[k]).position == p
}

/// Whether one of the updates is for the chunk at `p`.
pub open spec fn updates(messages: Seq<ChunkUpdated>, p: ChunkPosition) -> bool {
    exists|k: int| 0 <= k < messages.len() && (#[trigger] messages[k]).position == p
}

impl ServerWorld {
    /// The world's share of one fixed tick, in its order: the changes that
    /// entities asked for are carried out; the chunks activated since the
    /// last tick are announced; and the chunks updated since then, but for
    /// those just announced, are sent anew. The result says which changes
    /// wrote, and holds the messages for the clients that were connected
    /// before this tick: one announcement for each chunk that is owed one,
    /// one update for each chunk that is owed one, and no others, none of
    /// them twice, each with the chunk's blocks as the changes left them.
    pub fn fixed_tick(&mut self, changes: Vec<(Change, Ray)>) -> (r: (
        Vec<bool>,
        Vec<ChunkActivated>,
        Vec<ChunkUpdated>,
    ))
        requires
            old(self).wf(),
        ensures
            final(self).wf(),
            final(self).load_chunk_order == old(self).load_chunk_order,
            r.0@.len() == changes@.len(),
            forall|k: int|
                0 <= k < changes@.len() ==> #[trigger] r.0@[k] == edit_of(
                    &old(self).dimension,
                    changes@[k].0,
                    changes@[k].1,
                ).is_some(),
            edits_written(
                &old(self).dimension,
                &final(self).dimension,
                edits_of(&old(self).dimension, changes@),
            ),
            final(self).dimension.chunk_activations@ == Set::<ChunkPosition>::empty(),
            final(self).dimension.chunk_updated@ == Set::<ChunkPosition>::empty(),
            forall|k: int|
                0 <= k < r.1@.len() ==> {
                    let m = #[trigger] r.1@[k];
                    &&& announcement_owed(&old(self).dimension, m.position)
                    &&& m.lod == final(self).dimension.chunks@[m.position].held().lod()
                    &&& m.bytes@
                        == encoded(final(self).dimension.chunks@[m.position].held().blocks())
                },
            forall|k: int|
                0 <= k < r.2@.len() ==> {
                    let m = #[trigger] r.2@[k];
                    &&& update_owed(
                        &old(self).dimension,
                        edits_of(&old(self).dimension, changes@),
                        m.position,
                    )
                    &&& m.bytes@
                        == encoded(final(self).dimension.chunks@[m.position].held().blocks())
                },
            announced(r.1@).no_duplicates(),
            updated(r.2@).no_duplicates(),
            forall|p: ChunkPosition| #[trigger]
                announcement_owed(&old(self).dimension, p) ==> announces(r.1@, p),
            forall|p: ChunkPosition| #[trigger]
                update_owed(&old(self).dimension, edits_of(&old(self).dimension, changes@), p)
                    ==> updates(r.2@, p),
    {
        let ghost edits = edits_of(&old(self).dimension, changes@);
        let applied: Vec<bool> = self.make_changes(changes);
        let ghost mid = self.dimension;
        proof {
            assert(edits_applied(&old(self).dimension, &mid, edits));
        }
        let (activated, announced): (Vec<ChunkPosition>, Vec<ChunkActivated>) =
            self.chunk_activations();
        let updated: Vec<ChunkUpdated> = self.chunk_updates(&activated);
        proof {
            assert forall|p: ChunkPosition|
                activated@.contains(p) <==> old(self).dimension.chunk_activations@.contains(
                    p,
                ) by {
                assert(activated@.to_set().contains(p) <==> activated@.contains(p));
            }
            assert forall|p: ChunkPosition| #[trigger]
                old(self).dimension.chunks@.contains_key(p) implies (mid.chunks@[p] is Active
                <==> old(self).dimension.chunks@[p] is Active) by {
                assert(mid.chunks@[p].same_tag(old(self).dimension.chunks@[p]));
            }
            assert forall|k: int| 0 <= k < announced@.len() implies announcement_owed(
                &old(self).dimension,
                (#[trigger] announced@[k]).position,
            ) by {
                let m = announced@[k];
                assert(activated@.contains(m.position));
                assert(old(self).dimension.chunks@.contains_key(m.position));
            }
            assert forall|k: int| 0 <= k < updated@.len() implies update_owed(
                &old(self).dimension,
                edits,
                (#[trigger] updated@[k]).position,
            ) by {
                let m = updated@[k];
                assert(mid.chunk_updated@.contains(m.position));
                assert(!activated@.contains(m.position));
                assert(old(self).dimension.chunks@.contains_key(m.position));
            }
            assert forall|p: ChunkPosition| #[trigger]
                announcement_owed(&old(self).dimension, p) implies announces(announced@, p) by {
                assert(activated@.contains(p));
                assert(mid.chunks@.contains_key(p));
            }
            assert forall|p: ChunkPosition| #[trigger]
                update_owed(
                    &old(self).dimension,
                    edits_of(&old(self).dimension, changes@),
                    p,
                ) implies updates(updated@, p) by {
                assert(edits == edits_of(&old(self).dimension, changes@));
                assert(old(self).dimension.present_at(p));
                assert(mid.chunk_updated@.contains(p));
                assert(!activated@.contains(p));
                assert(mid.chunks@.contains_key(p));
            }
        }
        (applied, announced, updated)
    }
}

} // verus!
