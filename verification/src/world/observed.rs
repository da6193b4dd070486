use vstd::prelude::*;

use crate::util::bits::{bit_set, lemma_bits_decide};
use crate::world::ambient::{hood_reach, hood_wf, lemma_hood_samples_blocks, same_hood_blocks};
use crate::world::chunk::{Chunk, ClientChunk};
use crate::util::rle::decoded;
use crate::world::ambient::inside_ambient;
use crate::world::block::Block;
use crate::world::client::{
    activation_applied, activation_received, border_passed, border_resolved, hood_of,
    hood_position, lemma_activation_idempotent, lemma_derived_blocks, pass_touch, response_taken,
    ripe_activated, same_observed, touched_cells, update_received, views, visibility_passed,
    with_blocks, ClientWorld, InternalReq, InternalResp,
};
use crate::world::refresh::{enclosed, inner_face, refreshed, refreshed_cell, stirred};
use crate::world::visibility::open_inside;
use crate::world::dimension::ChunkState;
use crate::world::direction::{lemma_direction_roundtrip, Direction};
use crate::world::position::ChunkPosition;
use crate::world::settled::{inner_position, lemma_next_to, next_to, pair_settled};
use crate::world::structure::{axis_len, index_cell, lemma_index_cell, lemma_lod_table};
use crate::world::visibility::{lemma_sees_through_blocks, on_face};

verus! {

/// Whether the two worlds look the same: the same chunks stand at the same
/// positions and look the same, the same chunks wait, and the same chunks
/// are noted as activated and as updated.
pub open spec fn looks_same(a: &ClientWorld, b: &ClientWorld) -> bool {
    &&& a.dimension.chunks@.dom() == b.dimension.chunks@.dom()
    &&& forall|q: ChunkPosition| #[trigger]
        a.dimension.chunks@.contains_key(q) ==> same_observed(
            a.dimension.chunks@[q],
            b.dimension.chunks@[q],
        )
    &&& a.needs_visibility@ == b.needs_visibility@
    &&& a.needs_ao@ == b.needs_ao@
    &&& a.dimension.chunk_activations@ == b.dimension.chunk_activations@
    &&& a.dimension.chunk_updated@ == b.dimension.chunk_updated@
}

/// Whether no chunk of the world stands at the edge of the range of
/// positions, where a position has no neighbour on one side.
pub open spec fn away_from_edge(w: &ClientWorld) -> bool {
    forall|q: ChunkPosition| #[trigger] w.dimension.chunks@.contains_key(q) ==> inner_position(q)
}

/// Whether the two responses look the same: they are for the same position,
/// say the same of their chunks, and their chunks look the same.
pub open spec fn responses_look_same(r1: InternalResp, r2: InternalResp) -> bool {
    &&& r1.position == r2.position
    &&& r1.all_transparent == r2.all_transparent
    &&& same_observed(
        ChunkState::Stasis { chunk: r1.chunk },
        ChunkState::Stasis { chunk: r2.chunk },
    )
}

/// Making active what is ready sees only what can be observed: from worlds
/// that look the same it leads to worlds that look the same.
pub proof fn lemma_activate_looks_same(
    a1: &ClientWorld,
    b1: &ClientWorld,
    a2: &ClientWorld,
    b2: &ClientWorld,
)
    requires
        looks_same(a1, a2),
        ripe_activated(a1, b1),
        ripe_activated(a2, b2),
    ensures
        looks_same(b1, b2),
{
    assert forall|q: ChunkPosition| #[trigger]
        b1.dimension.chunks@.contains_key(q) implies same_observed(
        b1.dimension.chunks@[q],
        b2.dimension.chunks@[q],
    ) by {
        assert(a1.dimension.chunks@.contains_key(q));
        assert(a2.dimension.chunks@.contains_key(q));
        assert(same_observed(a1.dimension.chunks@[q], a2.dimension.chunks@[q]));
        assert(a1.ripe(q) == a2.ripe(q));
    }
    assert(b1.dimension.chunk_activations@ =~= b2.dimension.chunk_activations@) by {
        assert forall|p: ChunkPosition|
            b1.dimension.chunk_activations@.contains(p) == b2.dimension.chunk_activations@.contains(
                p,
            ) by {
            if a1.dimension.chunks@.contains_key(p) {
                assert(same_observed(a1.dimension.chunks@[p], a2.dimension.chunks@[p]));
            }
            assert(a1.ripe(p) == a2.ripe(p));
        }
    }
}

/// Putting in a chunk that came back from the background sees only what can
/// be observed.
pub proof fn lemma_response_looks_same(
    a1: &ClientWorld,
    b1: &ClientWorld,
    a2: &ClientWorld,
    b2: &ClientWorld,
    r1: InternalResp,
    r2: InternalResp,
)
    requires
        looks_same(a1, a2),
        responses_look_same(r1, r2),
        response_taken(a1, b1, r1),
        response_taken(a2, b2, r2),
    ensures
        looks_same(b1, b2),
{
    assert(b1.dimension.chunks@.dom() =~= b2.dimension.chunks@.dom());
    assert forall|q: ChunkPosition| #[trigger]
        b1.dimension.chunks@.contains_key(q) implies same_observed(
        b1.dimension.chunks@[q],
        b2.dimension.chunks@[q],
    ) by {
        if q != r1.position {
            assert(a1.dimension.chunks@.contains_key(q));
        }
    }
}

/// A share of resolving shared faces sees only what can be observed: from
/// worlds that look the same, resolving the same chunks leads to worlds that
/// look the same.
pub proof fn lemma_visibility_looks_same(
    a1: &ClientWorld,
    b1: &ClientWorld,
    a2: &ClientWorld,
    b2: &ClientWorld,
    done: Seq<ChunkPosition>,
)
    requires
        a1.wf(),
        a2.wf(),
        away_from_edge(a1),
        looks_same(a1, a2),
        visibility_passed(a1, b1, done),
        visibility_passed(a2, b2, done),
    ensures
        looks_same(b1, b2),
{
    let m1 = a1.dimension.chunks@;
    let m2 = a2.dimension.chunks@;
    let n1 = b1.dimension.chunks@;
    let n2 = b2.dimension.chunks@;
    assert forall|q: ChunkPosition| #[trigger] n1.contains_key(q) implies same_observed(
        n1[q],
        n2[q],
    ) by {
        assert(m1.contains_key(q));
        assert(m2.contains_key(q));
        assert(same_observed(m1[q], m2[q]));
        assert(n1[q].same_tag(m1[q]));
        assert(n2[q].same_tag(m2[q]));
        if n1[q].present() {
            assert(a1.dimension.present_at(q));
            assert(a2.dimension.present_at(q));
            let c1 = n1[q].held();
            let c2 = n2[q].held();
            let level = c1.level();
            let n = axis_len(level);
            lemma_lod_table(level);
            assert(m1[q].wf());
            if !done.contains(q) {
                assert(c1.same_frame(&m1[q].held()));
                assert(c2.same_frame(&m2[q].held()));
            }
            assert forall|i: int| 0 <= i < c1@.len() implies (#[trigger] c1@[i]).block
                == c2@[i].block && c1@[i].visible_mask == c2@[i].visible_mask && c1@[i].ambient@
                == c2@[i].ambient@ by {
                lemma_index_cell(n, i);
                lemma_cell_looks_same(a1, b1, a2, b2, done, q, i);
            }
        }
    }
    assert(b1.needs_visibility@ =~= b2.needs_visibility@);
}

/// The step of `lemma_visibility_looks_same` for one cell.
proof fn lemma_cell_looks_same(
    a1: &ClientWorld,
    b1: &ClientWorld,
    a2: &ClientWorld,
    b2: &ClientWorld,
    done: Seq<ChunkPosition>,
    q: ChunkPosition,
    i: int,
)
    requires
        a1.wf(),
        a2.wf(),
        away_from_edge(a1),
        looks_same(a1, a2),
        visibility_passed(a1, b1, done),
        visibility_passed(a2, b2, done),
        a1.dimension.present_at(q),
        0 <= i < a1.dimension.chunks@[q].held()@.len(),
    ensures
        b1.dimension.chunks@[q].held()@[i].block == b2.dimension.chunks@[q].held()@[i].block,
        b1.dimension.chunks@[q].held()@[i].visible_mask
            == b2.dimension.chunks@[q].held()@[i].visible_mask,
        b1.dimension.chunks@[q].held()@[i].ambient@ == b2.dimension.chunks@[q].held()@[i].ambient@,
{
    let m1 = a1.dimension.chunks@;
    let m2 = a2.dimension.chunks@;
    let n1 = b1.dimension.chunks@;
    let n2 = b2.dimension.chunks@;
    assert(m1.contains_key(q));
    assert(m2.contains_key(q));
    assert(same_observed(m1[q], m2[q]));
    assert(a2.dimension.present_at(q));
    let level = m1[q].held().level();
    let n = axis_len(level);
    lemma_lod_table(level);
    assert(m1[q].wf());
    lemma_index_cell(n, i);
    let k1 = n1[q].held()@[i].visible_mask;
    let k2 = n2[q].held()@[i].visible_mask;
    assert(views(m1).contains_key(q));
    assert(views(m2).contains_key(q));
    assert forall|j: u8| j < 8 implies bit_set(k1, j) == bit_set(k2, j) by {
        let d = Direction::of_index(j as nat);
        let t1 = pass_touch(m1, done, q)(d);
        let t2 = pass_touch(m2, done, q)(d);
        let p = next_to(q, d);
        if done.contains(p) {
            assert(a1.visibility_ready(p));
            assert(m1.contains_key(p));
            assert(same_observed(m1[p], m2[p]));
        }
        assert(t1 == t2);
        if j < 6 && t1 && on_face(n, index_cell(n, i), d) {
            assert(d.index() == j);
            lemma_direction_roundtrip(d);
            if done.contains(q) && !bit_set(
                m1[q].held().neighbor_direction_visibility_mask,
                d.index() as u8,
            ) {
                assert(a1.visibility_ready(q));
                assert(a1.dimension.present_at(neighbor_of_position(q, d)));
                lemma_face_looks_same(a1, b1, a2, b2, done, q, p, d, i);
                assert(pair_settled(views(n1), q, d));
                assert(pair_settled(views(n2), q, d));
            } else {
                assert(done.contains(p));
                let e = d.flipped();
                assert(inner_position(q));
                lemma_next_to(q, d);
                assert(next_to(p, e) == q);
                assert(pair_settled(views(n1), p, e));
                assert(pair_settled(views(n2), p, e));
                lemma_face_looks_same(a1, b1, a2, b2, done, q, p, d, i);
            }
        } else {
            assert(bit_set(k1, j) == bit_set(m1[q].held()@[i].visible_mask, j));
            assert(bit_set(k2, j) == bit_set(m2[q].held()@[i].visible_mask, j));
        }
    }
    lemma_bits_decide(k1, k2);
}

/// The position next to `q` in the direction `d`.
spec fn neighbor_of_position(q: ChunkPosition, d: Direction) -> ChunkPosition {
    crate::world::visibility::neighbor_of(q, d).position
}

/// What a cell on a face sees through the face is the same in two worlds
/// whose chunks across the face hold the same blocks.
proof fn lemma_face_looks_same(
    a1: &ClientWorld,
    b1: &ClientWorld,
    a2: &ClientWorld,
    b2: &ClientWorld,
    done: Seq<ChunkPosition>,
    q: ChunkPosition,
    p: ChunkPosition,
    d: Direction,
    i: int,
)
    requires
        a1.wf(),
        a2.wf(),
        looks_same(a1, a2),
        visibility_passed(a1, b1, done),
        visibility_passed(a2, b2, done),
        a1.dimension.present_at(q),
        a1.dimension.present_at(p),
        0 <= i < a1.dimension.chunks@[q].held()@.len(),
    ensures
        crate::world::visibility::sees_through(
            views(b1.dimension.chunks@)[q].0,
            index_cell(axis_len(views(b1.dimension.chunks@)[q].0), i),
            views(b1.dimension.chunks@)[p].1,
            views(b1.dimension.chunks@)[p].0,
            d,
        ) == crate::world::visibility::sees_through(
            views(b2.dimension.chunks@)[q].0,
            index_cell(axis_len(views(b2.dimension.chunks@)[q].0), i),
            views(b2.dimension.chunks@)[p].1,
            views(b2.dimension.chunks@)[p].0,
            d,
        ),
        views(b1.dimension.chunks@).contains_key(q),
        views(b2.dimension.chunks@).contains_key(q),
        views(b1.dimension.chunks@).contains_key(p),
        views(b2.dimension.chunks@).contains_key(p),
        views(b1.dimension.chunks@)[q].1.len() == a1.dimension.chunks@[q].held()@.len(),
        views(b2.dimension.chunks@)[q].1.len() == a1.dimension.chunks@[q].held()@.len(),
        views(b1.dimension.chunks@)[q].0 == a1.dimension.chunks@[q].held().level(),
        views(b2.dimension.chunks@)[q].0 == a1.dimension.chunks@[q].held().level(),
{
    let m1 = a1.dimension.chunks@;
    let m2 = a2.dimension.chunks@;
    let n1 = b1.dimension.chunks@;
    let n2 = b2.dimension.chunks@;
    assert(m1.contains_key(q) && m1.contains_key(p));
    assert(m2.contains_key(q) && m2.contains_key(p));
    assert(same_observed(m1[q], m2[q]));
    assert(same_observed(m1[p], m2[p]));
    assert(n1[q].same_tag(m1[q]) && n1[p].same_tag(m1[p]));
    assert(n2[q].same_tag(m2[q]) && n2[p].same_tag(m2[p]));
    assert(m1[q].wf() && m1[p].wf());
    let lq = m1[q].held().level();
    let lp = m1[p].held().level();
    lemma_lod_table(lq);
    lemma_lod_table(lp);
    lemma_index_cell(axis_len(lq), i);
    let y = n1[p].held()@;
    let z = n2[p].held()@;
    assert(crate::world::visibility::same_blocks(y, z)) by {
        assert forall|k: int| 0 <= k < y.len() implies y[k].block == z[k].block by {
            assert(m1[p].held()@[k].block == m2[p].held()@[k].block);
        }
    }
    lemma_sees_through_blocks(lq, index_cell(axis_len(lq), i), y, z, lp, d);
}

/// A share of border brightness sees only what can be observed: from worlds
/// that look the same, taking the brightness of the same chunks leads to
/// worlds that look the same.
pub proof fn lemma_border_looks_same(
    a1: &ClientWorld,
    b1: &ClientWorld,
    a2: &ClientWorld,
    b2: &ClientWorld,
    done: Seq<ChunkPosition>,
)
    requires
        a1.wf(),
        a2.wf(),
        looks_same(a1, a2),
        border_passed(a1, b1, done),
        border_passed(a2, b2, done),
    ensures
        looks_same(b1, b2),
{
    let m1 = a1.dimension.chunks@;
    let m2 = a2.dimension.chunks@;
    let n1 = b1.dimension.chunks@;
    let n2 = b2.dimension.chunks@;
    assert forall|q: ChunkPosition| #[trigger] n1.contains_key(q) implies same_observed(
        n1[q],
        n2[q],
    ) by {
        assert(m1.contains_key(q));
        assert(m2.contains_key(q));
        assert(same_observed(m1[q], m2[q]));
        assert(n1[q].same_tag(m1[q]));
        assert(n2[q].same_tag(m2[q]));
        if done.contains(q) {
            lemma_lit_looks_same(a1, b1, a2, b2, done, q);
        }
    }
    assert(b1.needs_ao@ =~= b2.needs_ao@);
}

/// The step of `lemma_border_looks_same` for one chunk whose brightness was
/// taken.
proof fn lemma_lit_looks_same(
    a1: &ClientWorld,
    b1: &ClientWorld,
    a2: &ClientWorld,
    b2: &ClientWorld,
    done: Seq<ChunkPosition>,
    q: ChunkPosition,
)
    requires
        a1.wf(),
        a2.wf(),
        looks_same(a1, a2),
        border_passed(a1, b1, done),
        border_passed(a2, b2, done),
        done.contains(q),
    ensures
        same_observed(b1.dimension.chunks@[q], b2.dimension.chunks@[q]),
{
    let m1 = a1.dimension.chunks@;
    let m2 = a2.dimension.chunks@;
    let c1 = b1.dimension.chunks@[q].held();
    let c2 = b2.dimension.chunks@[q].held();
    assert(a1.border_due(q));
    assert(a2.border_due(q));
    assert(hood_position(q, 13) == q);
    assert(a1.dimension.present_at(hood_position(q, 13)));
    assert(m1.contains_key(q));
    assert(m2.contains_key(q));
    assert(same_observed(m1[q], m2[q]));
    assert(b1.dimension.chunks@[q].same_tag(m1[q]));
    assert(b2.dimension.chunks@[q].same_tag(m2[q]));
    assert(border_resolved(m1, q, c1));
    assert(border_resolved(m2, q, c2));
    let before1 = m1[q].held();
    let before2 = m2[q].held();
    let n = axis_len(before1.level());
    assert(m1[q].wf());
    lemma_lod_table(before1.level());
    let h1 = hood_of(m1, q);
    let h2 = hood_of(m2, q);
    assert(same_hood_blocks(h1, h2)) by {
        assert forall|k: int| 0 <= k < 27 implies (#[trigger] h1[k]).level() == h2[k].level()
            && h1[k]@.len() == h2[k]@.len() && forall|i: int|
            0 <= i < h1[k]@.len() ==> (#[trigger] h1[k]@[i]).block == h2[k]@[i].block by {
            assert(a1.dimension.present_at(hood_position(q, k)));
            assert(m1.contains_key(hood_position(q, k)));
            assert(same_observed(m1[hood_position(q, k)], m2[hood_position(q, k)]));
        }
    }
    assert(hood_wf(h1)) by {
        assert forall|k: int| 0 <= k < 27 implies (#[trigger] h1[k]).wf() by {
            assert(a1.dimension.present_at(hood_position(q, k)));
            assert(m1.contains_key(hood_position(q, k)));
            assert(m1[hood_position(q, k)].wf());
        }
    }
    assert forall|i: int| 0 <= i < c1@.len() implies (#[trigger] c1@[i]).block == c2@[i].block
        && c1@[i].visible_mask == c2@[i].visible_mask && c1@[i].ambient@ == c2@[i].ambient@ by {
        lemma_index_cell(n, i);
        assert(before1@[i].visible_mask == before2@[i].visible_mask);
        assert(before1@[i].ambient@ == before2@[i].ambient@);
        assert(c1@[i].ambient@ =~= c2@[i].ambient@) by {
            assert forall|k: int| 0 <= k < 6 implies c1@[i].ambient@[k] == c2@[i].ambient@[k] by {
                let e = Direction::of_index(k as nat);
                assert(e.index() == k);
                lemma_hood_samples_blocks(h1, h2, q, index_cell(n, i), e);
                assert(before1@[i].ambient@[k] == before2@[i].ambient@[k]);
                assert(c1@[i].ambient[e.index() as int] == c1@[i].ambient@[k]);
                assert(c2@[i].ambient[e.index() as int] == c2@[i].ambient@[k]);
            }
        }
        assert(b1.dimension.chunks@[q].held()@[i].block == m1[q].held()@[i].block);
        assert(b2.dimension.chunks@[q].held()@[i].block == m2[q].held()@[i].block);
    }
}

/// Taking a message that activates a chunk sees only what can be observed.
pub proof fn lemma_activation_looks_same(
    a1: &ClientWorld,
    b1: &ClientWorld,
    a2: &ClientWorld,
    b2: &ClientWorld,
    position: ChunkPosition,
    lod: usize,
    bytes: Seq<u8>,
    r1: Option<InternalReq>,
    r2: Option<InternalReq>,
)
    requires
        looks_same(a1, a2),
        activation_received(a1, b1, position, lod, bytes, r1),
        activation_received(a2, b2, position, lod, bytes, r2),
    ensures
        looks_same(b1, b2),
        r1.is_some() == r2.is_some(),
{
    assert(b1.dimension.chunks@.dom() =~= b2.dimension.chunks@.dom());
    assert forall|q: ChunkPosition| #[trigger]
        b1.dimension.chunks@.contains_key(q) implies same_observed(
        b1.dimension.chunks@[q],
        b2.dimension.chunks@[q],
    ) by {
        if q != position || r1.is_none() {
            assert(a1.dimension.chunks@.contains_key(q));
        }
    }
}

/// Taking a message that updates a chunk sees only what can be observed:
/// from worlds that look the same, the same message is taken or dropped in
/// both and leads to worlds that look the same.
pub proof fn lemma_update_looks_same(
    a1: &ClientWorld,
    b1: &ClientWorld,
    a2: &ClientWorld,
    b2: &ClientWorld,
    position: ChunkPosition,
    bytes: Seq<u8>,
    taken1: bool,
    taken2: bool,
)
    requires
        a1.wf(),
        a2.wf(),
        looks_same(a1, a2),
        update_received(a1, b1, position, bytes, taken1),
        update_received(a2, b2, position, bytes, taken2),
    ensures
        taken1 == taken2,
        looks_same(b1, b2),
{
    let m1 = a1.dimension.chunks@;
    let m2 = a2.dimension.chunks@;
    let n1 = b1.dimension.chunks@;
    let n2 = b2.dimension.chunks@;
    if m1.contains_key(position) {
        assert(same_observed(m1[position], m2[position]));
    }
    assert(taken1 == taken2);
    assert(n1.dom() =~= n2.dom());
    assert forall|q: ChunkPosition| #[trigger] n1.contains_key(q) implies same_observed(
        n1[q],
        n2[q],
    ) by {
        assert(m1.contains_key(q));
        assert(same_observed(m1[q], m2[q]));
        if q == position && taken1 {
            let c1 = n1[q].held();
            let c2 = n2[q].held();
            assert forall|i: int| 0 <= i < c1@.len() implies (#[trigger] c1@[i]).block
                == c2@[i].block && c1@[i].visible_mask == c2@[i].visible_mask && c1@[i].ambient@
                == c2@[i].ambient@ by {
                lemma_cell_refreshed_same(a1, b1, a2, b2, position, bytes, i);
            }
        }
    }
}

/// The step of `lemma_update_looks_same` for one cell.
proof fn lemma_cell_refreshed_same(
    a1: &ClientWorld,
    b1: &ClientWorld,
    a2: &ClientWorld,
    b2: &ClientWorld,
    position: ChunkPosition,
    bytes: Seq<u8>,
    i: int,
)
    requires
        a1.wf(),
        a2.wf(),
        looks_same(a1, a2),
        update_received(a1, b1, position, bytes, true),
        update_received(a2, b2, position, bytes, true),
        0 <= i < a1.dimension.chunks@[position].held()@.len(),
    ensures
        b1.dimension.chunks@[position].held()@[i].block
            == b2.dimension.chunks@[position].held()@[i].block,
        b1.dimension.chunks@[position].held()@[i].visible_mask
            == b2.dimension.chunks@[position].held()@[i].visible_mask,
        b1.dimension.chunks@[position].held()@[i].ambient@
            == b2.dimension.chunks@[position].held()@[i].ambient@,
{
    let m1 = a1.dimension.chunks@;
    let m2 = a2.dimension.chunks@;
    let before1 = m1[position].held();
    let before2 = m2[position].held();
    let c1 = b1.dimension.chunks@[position].held()@;
    let c2 = b2.dimension.chunks@[position].held()@;
    assert(m1.contains_key(position));
    assert(same_observed(m1[position], m2[position]));
    assert(m1[position].wf());
    let level = before1.level();
    let n = axis_len(level);
    lemma_lod_table(level);
    let blocks = decoded(bytes);
    let w1 = with_blocks(before1@, blocks);
    let w2 = with_blocks(before2@, blocks);
    let t1 = touched_cells(before1@, blocks);
    let t2 = touched_cells(before2@, blocks);
    assert(t1 =~= t2);
    assert(refreshed(w1, c1, n, t1));
    assert(refreshed(w2, c2, n, t2));
    assert(crate::world::visibility::same_blocks(c1, c2)) by {
        assert forall|k: int| 0 <= k < c1.len() implies c1[k].block == c2[k].block by {
            if stirred(t1, n, k) {
                assert(refreshed_cell(c1, n, k, w1[k], c1[k]));
                assert(refreshed_cell(c2, n, k, w2[k], c2[k]));
            }
        }
    }
    if stirred(t1, n, i) {
        assert(refreshed_cell(c1, n, i, w1[i], c1[i]));
        assert(refreshed_cell(c2, n, i, w2[i], c2[i]));
        let k1 = c1[i].visible_mask;
        let k2 = c2[i].visible_mask;
        assert forall|j: u8| j < 8 implies bit_set(k1, j) == bit_set(k2, j) by {
            if j < 6 {
                let d = Direction::of_index(j as nat);
                assert(d.index() == j);
                lemma_derived_blocks(c1, c2, n, i, d);
            }
        }
        lemma_bits_decide(k1, k2);
        if enclosed(n, i) {
            assert(c1[i].ambient@ =~= c2[i].ambient@) by {
                assert forall|k: int| 0 <= k < 6 implies c1[i].ambient@[k] == c2[i].ambient@[k] by {
                    let e = Direction::of_index(k as nat);
                    assert(e.index() == k);
                    lemma_derived_blocks(c1, c2, n, i, e);
                    assert(c1[i].ambient[e.index() as int] == c1[i].ambient@[k]);
                    assert(c2[i].ambient[e.index() as int] == c2[i].ambient@[k]);
                }
            }
        }
    }
}

/// A message that activates a chunk, applied a second time, leaves a world
/// that looks the same as after the first time. By the other laws here the
/// two worlds go on looking the same through every step of the pipeline in
/// which the same chunks are worked on.
pub proof fn lemma_second_activation_looks_same(
    w0: &ClientWorld,
    w1: &ClientWorld,
    w2: &ClientWorld,
    p: ChunkPosition,
    level: nat,
    blocks: Seq<Block>,
)
    requires
        level <= 5,
        activation_applied(w0, w1, p, level, blocks),
        activation_applied(w1, w2, p, level, blocks),
        w2.dimension.chunk_activations@ == w1.dimension.chunk_activations@,
        w2.dimension.chunk_updated@ == w1.dimension.chunk_updated@,
    ensures
        looks_same(w1, w2),
{
    lemma_activation_idempotent(w0, w1, w2, p, level, blocks);
}

} // verus!
