use vstd::prelude::*;

use crate::util::bits::bit_set;
use crate::world::chunk::ClientBlockInfo;
use crate::world::direction::{lemma_direction_roundtrip, Direction};
use crate::world::position::ChunkPosition;
use crate::world::structure::{axis_len, index_cell, lemma_index_cell, lemma_lod_table, volume};
use crate::world::visibility::{
    lemma_resolved_face_bits, lemma_sees_through_blocks, neighbor_of, on_face, resolved,
    same_blocks, sees_through,
};

verus! {

/// What matters of a chunk for the faces it shares: its level and its
/// cells.
pub type ChunkView = (nat, Seq<ClientBlockInfo>);

/// The chunks of a world that hold data, each by what matters of it.
pub type WorldView = Map<ChunkPosition, ChunkView>;

/// The level exists and there is one cell entry for each of its cells.
pub open spec fn view_ok(v: ChunkView) -> bool {
    v.0 <= 5 && v.1.len() == volume(v.0)
}

/// Whether `b` is the chunk `a` but for what was derived for its cells.
pub open spec fn same_matter(a: ChunkView, b: ChunkView) -> bool {
    a.0 == b.0 && same_blocks(a.1, b.1)
}

/// Whether every cell on the face `d` of the chunk `x` shows that face
/// exactly where it sees through to the chunk `y`.
pub open spec fn face_settled(x: ChunkView, y: ChunkView, d: Direction) -> bool {
    forall|i: int|
        0 <= i < x.1.len() && on_face(axis_len(x.0), index_cell(axis_len(x.0), i), d) ==> bit_set(
            (#[trigger] x.1[i]).visible_mask,
            d.index() as u8,
        ) == sees_through(x.0, index_cell(axis_len(x.0), i), y.1, y.0, d)
}

/// Whether the position has a neighbour in every direction.
pub open spec fn inner_position(p: ChunkPosition) -> bool {
    &&& isize::MIN < p.x < isize::MAX
    &&& isize::MIN < p.y < isize::MAX
    &&& isize::MIN < p.z < isize::MAX
}

/// The position next to `p` in the direction `d`.
pub open spec fn next_to(p: ChunkPosition, d: Direction) -> ChunkPosition {
    neighbor_of(p, d).position
}

/// Whether the face that the chunk at `x` shares with its neighbour in the
/// direction `d` is settled on both sides.
pub open spec fn pair_settled(w: WorldView, x: ChunkPosition, d: Direction) -> bool {
    &&& inner_position(x)
    &&& w.contains_key(x)
    &&& w.contains_key(next_to(x, d))
    &&& face_settled(w[x], w[next_to(x, d)], d)
    &&& face_settled(w[next_to(x, d)], w[x], d.flipped())
}

/// Whether `after` is the world `before` with the face that the chunk at
/// `a` shares with its neighbour in the direction `e` resolved on both
/// sides, and nothing else changed.
pub open spec fn face_step(before: WorldView, after: WorldView, a: ChunkPosition,
    e: Direction) -> bool {
    let b = next_to(a, e);
    &&& inner_position(a)
    &&& before.contains_key(a)
    &&& before.contains_key(b)
    &&& after.dom() == before.dom()
    &&& forall|q: ChunkPosition| #[trigger] before.contains_key(q) ==> view_ok(before[q])
    &&& after[a] == (before[a].0, resolved(before[a].1, before[a].0, before[b].1, before[b].0, e))
    &&& after[b] == (
        before[b].0,
        resolved(before[b].1, before[b].0, before[a].1, before[a].0, e.flipped()),
    )
    &&& forall|q: ChunkPosition|
        q != a && q != b && before.contains_key(q) ==> #[trigger] after[q] == before[q]
}

/// Stepping from a position and back leads to the position; two directions
/// lead to the same neighbour only if they are the same.
pub proof fn lemma_next_to(p: ChunkPosition, d: Direction)
    requires
        inner_position(p),
    ensures
        next_to(p, d) != p,
        next_to(next_to(p, d), d.flipped()) == p,
        forall|q: ChunkPosition|
            inner_position(q) && next_to(q, d) == next_to(p, d) ==> q == p,
        forall|q: ChunkPosition|
            inner_position(q) && next_to(q, d.flipped()) == p ==> q == next_to(p, d),
{
}

/// A face that was just resolved is settled, against the neighbour it was
/// resolved against and against every chunk with the same blocks.
pub proof fn lemma_settle(x: ChunkView, y: ChunkView, y2: ChunkView, d: Direction)
    requires
        view_ok(x),
        view_ok(y),
        same_matter(y, y2),
    ensures
        face_settled((x.0, resolved(x.1, x.0, y.1, y.0, d)), y2, d),
{
    let n = axis_len(x.0);
    let after = resolved(x.1, x.0, y.1, y.0, d);
    lemma_lod_table(x.0);
    assert forall|i: int| 0 <= i < after.len() && on_face(n, index_cell(n, i), d) implies bit_set(
        (#[trigger] after[i]).visible_mask,
        d.index() as u8,
    ) == sees_through(x.0, index_cell(n, i), y2.1, y2.0, d) by {
        lemma_resolved_face_bits(x.1, x.0, y.1, y.0, d, i);
        lemma_index_cell(n, i);
        lemma_sees_through_blocks(x.0, index_cell(n, i), y.1, y2.1, y.0, d);
    }
}

/// A settled face stays settled when another face of the chunk is
/// resolved.
pub proof fn lemma_other_face(x: ChunkView, z: ChunkView, y: ChunkView, e: Direction, d: Direction)
    requires
        view_ok(x),
        view_ok(z),
        e != d,
        face_settled(x, y, d),
    ensures
        face_settled((x.0, resolved(x.1, x.0, z.1, z.0, e)), y, d),
{
    let n = axis_len(x.0);
    let after = resolved(x.1, x.0, z.1, z.0, e);
    lemma_direction_roundtrip(d);
    lemma_direction_roundtrip(e);
    assert(d.index() != e.index());
    assert forall|i: int| 0 <= i < after.len() && on_face(n, index_cell(n, i), d) implies bit_set(
        (#[trigger] after[i]).visible_mask,
        d.index() as u8,
    ) == sees_through(x.0, index_cell(n, i), y.1, y.0, d) by {
        lemma_resolved_face_bits(x.1, x.0, z.1, z.0, e, i);
    }
}

/// A settled face stays settled when the chunk behind it changes in
/// nothing but what was derived for its cells.
pub proof fn lemma_partner_changed(x: ChunkView, y: ChunkView, y2: ChunkView, d: Direction)
    requires
        view_ok(x),
        view_ok(y),
        same_matter(y, y2),
        face_settled(x, y, d),
    ensures
        face_settled(x, y2, d),
{
    let n = axis_len(x.0);
    lemma_lod_table(x.0);
    assert forall|i: int| 0 <= i < x.1.len() && on_face(n, index_cell(n, i), d) implies bit_set(
        (#[trigger] x.1[i]).visible_mask,
        d.index() as u8,
    ) == sees_through(x.0, index_cell(n, i), y2.1, y2.0, d) by {
        lemma_index_cell(n, i);
        lemma_sees_through_blocks(x.0, index_cell(n, i), y.1, y2.1, y.0, d);
    }
}

/// Resolving a face keeps the level and the blocks of a chunk.
pub proof fn lemma_resolved_matter(x: ChunkView, y: ChunkView, d: Direction)
    requires
        view_ok(x),
    ensures
        same_matter(x, (x.0, resolved(x.1, x.0, y.1, y.0, d))),
        view_ok((x.0, resolved(x.1, x.0, y.1, y.0, d))),
{
}

/// One step of resolving keeps every chunk's level and blocks.
pub proof fn lemma_step_matter(before: WorldView, after: WorldView, a: ChunkPosition, e: Direction,
    q: ChunkPosition)
    requires
        face_step(before, after, a, e),
        before.contains_key(q),
    ensures
        same_matter(before[q], after[q]),
        view_ok(after[q]),
        after.contains_key(q),
{
    let b = next_to(a, e);
    lemma_resolved_matter(before[a], before[b], e);
    lemma_resolved_matter(before[b], before[a], e.flipped());
}

/// How one side of a shared face fares in one step of resolving: the face
/// `d` of the chunk at `x`, settled against the chunk at `y`, stays settled,
/// provided that, if the step resolves this very face, `y` is the chunk that
/// it is resolved against.
proof fn lemma_side_kept(
    before: WorldView,
    after: WorldView,
    a: ChunkPosition,
    e: Direction,
    x: ChunkPosition,
    y: ChunkPosition,
    d: Direction,
)
    requires
        face_step(before, after, a, e),
        before.contains_key(x),
        before.contains_key(y),
        face_settled(before[x], before[y], d),
        x == a && d == e ==> y == next_to(a, e),
        x == next_to(a, e) && d == e.flipped() ==> y == a,
    ensures
        face_settled(after[x], after[y], d),
{
    let b = next_to(a, e);
    lemma_next_to(a, e);
    lemma_step_matter(before, after, a, e, x);
    lemma_step_matter(before, after, a, e, y);
    lemma_step_matter(before, after, a, e, a);
    lemma_step_matter(before, after, a, e, b);
    if x == a {
        if d == e {
            lemma_settle(before[a], before[b], after[b], e);
        } else {
            lemma_other_face(before[a], before[b], before[y], e, d);
            lemma_partner_changed(after[a], before[y], after[y], d);
        }
    } else if x == b {
        if d == e.flipped() {
            lemma_settle(before[b], before[a], after[a], e.flipped());
        } else {
            lemma_other_face(before[b], before[a], before[y], e.flipped(), d);
            lemma_partner_changed(after[b], before[y], after[y], d);
        }
    } else {
        lemma_partner_changed(before[x], before[y], after[y], d);
    }
}

/// One step of resolving unsettles no shared face.
pub proof fn lemma_step_keeps(
    before: WorldView,
    after: WorldView,
    a: ChunkPosition,
    e: Direction,
    x: ChunkPosition,
    d: Direction,
)
    requires
        face_step(before, after, a, e),
        pair_settled(before, x, d),
    ensures
        pair_settled(after, x, d),
{
    let b = next_to(a, e);
    let y = next_to(x, d);
    lemma_next_to(a, e);
    lemma_next_to(x, d);
    lemma_direction_roundtrip(d);
    lemma_direction_roundtrip(e);
    lemma_side_kept(before, after, a, e, x, y, d);
    // The other side of the face: if the step resolves it, then against `x`.
    if y == a && d.flipped() == e {
        assert(x == b);
    }
    if y == b && d.flipped() == e.flipped() {
        assert(d == e);
        assert(x == a);
    }
    lemma_side_kept(before, after, a, e, y, x, d.flipped());
}

/// One step of resolving settles the face it resolves.
pub proof fn lemma_step_settles(before: WorldView, after: WorldView, a: ChunkPosition, e: Direction)
    requires
        face_step(before, after, a, e),
    ensures
        pair_settled(after, a, e),
{
    let b = next_to(a, e);
    lemma_next_to(a, e);
    lemma_step_matter(before, after, a, e, a);
    lemma_step_matter(before, after, a, e, b);
    lemma_settle(before[a], before[b], after[b], e);
    lemma_settle(before[b], before[a], after[a], e.flipped());
}

/// Whether the visibility masks of `after` are those of `before` but for
/// the bits of the faces that `touched` names, on the cells that lie on
/// those faces.
pub open spec fn masks_kept(before: ChunkView, after: ChunkView, touched: spec_fn(Direction) -> bool) -> bool {
    &&& after.0 == before.0
    &&& after.1.len() == before.1.len()
    &&& forall|i: int, j: u8|
        0 <= i < before.1.len() && j < 8 && !(j < 6 && touched(Direction::of_index(j as nat))
            && on_face(
            axis_len(before.0),
            index_cell(axis_len(before.0), i),
            Direction::of_index(j as nat),
        )) ==> #[trigger] bit_set(after.1[i].visible_mask, j) == bit_set(
            before.1[i].visible_mask,
            j,
        )
}

/// The faces of the chunk at `q` that one step of resolving may write: the
/// face `e` of the chunk at `a`, and the face towards `a` of the chunk next
/// to it.
pub open spec fn step_touch(a: ChunkPosition, e: Direction, q: ChunkPosition) -> spec_fn(
    Direction,
) -> bool {
    |d: Direction| (q == a && d == e) || (q == next_to(a, e) && d == e.flipped())
}

/// Resolving a face writes no bit but the bit of the face, and that only
/// on the cells of the face.
pub proof fn lemma_resolved_keeps(x: ChunkView, y: ChunkView, d: Direction)
    requires
        view_ok(x),
        view_ok(y),
    ensures
        masks_kept(x, (x.0, resolved(x.1, x.0, y.1, y.0, d)), |e: Direction| e == d),
{
    let after = resolved(x.1, x.0, y.1, y.0, d);
    let n = axis_len(x.0);
    lemma_direction_roundtrip(d);
    assert forall|i: int, j: u8|
        0 <= i < x.1.len() && j < 8 && !(j < 6 && Direction::of_index(j as nat) == d && on_face(
            n,
            index_cell(n, i),
            Direction::of_index(j as nat),
        )) implies #[trigger] bit_set(after[i].visible_mask, j) == bit_set(
        x.1[i].visible_mask,
        j,
    ) by {
        lemma_resolved_face_bits(x.1, x.0, y.1, y.0, d, i);
        if j == d.index() {
            assert(Direction::of_index(j as nat) == d);
        }
    }
}

/// What two steps keep, one after the other, is kept by both together.
pub proof fn lemma_masks_kept_chain(
    a: ChunkView,
    b: ChunkView,
    c: ChunkView,
    first: spec_fn(Direction) -> bool,
    second: spec_fn(Direction) -> bool,
    both: spec_fn(Direction) -> bool,
)
    requires
        masks_kept(a, b, first),
        masks_kept(b, c, second),
        forall|d: Direction| first(d) || second(d) ==> #[trigger] both(d),
    ensures
        masks_kept(a, c, both),
{
    assert forall|i: int, j: u8|
        0 <= i < a.1.len() && j < 8 && !(j < 6 && both(Direction::of_index(j as nat)) && on_face(
            axis_len(a.0),
            index_cell(axis_len(a.0), i),
            Direction::of_index(j as nat),
        )) implies #[trigger] bit_set(c.1[i].visible_mask, j) == bit_set(
        a.1[i].visible_mask,
        j,
    ) by {
        assert(bit_set(b.1[i].visible_mask, j) == bit_set(a.1[i].visible_mask, j));
        assert(bit_set(c.1[i].visible_mask, j) == bit_set(b.1[i].visible_mask, j));
    }
}

/// One step of resolving writes, in every chunk, no bit but those of the
/// face it resolves.
pub proof fn lemma_step_touches(before: WorldView, after: WorldView, a: ChunkPosition, e: Direction, q: ChunkPosition)
    requires
        face_step(before, after, a, e),
        before.contains_key(q),
    ensures
        masks_kept(before[q], after[q], step_touch(a, e, q)),
{
    let b = next_to(a, e);
    lemma_next_to(a, e);
    if q == a {
        lemma_resolved_keeps(before[a], before[b], e);
        lemma_masks_kept_chain(
            before[q],
            after[q],
            after[q],
            |d: Direction| d == e,
            |d: Direction| false,
            step_touch(a, e, q),
        );
    } else if q == b {
        lemma_resolved_keeps(before[b], before[a], e.flipped());
        lemma_masks_kept_chain(
            before[q],
            after[q],
            after[q],
            |d: Direction| d == e.flipped(),
            |d: Direction| false,
            step_touch(a, e, q),
        );
    }
}

} // verus!
