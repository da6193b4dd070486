use vstd::prelude::*;

use crate::world::block::Block;
use crate::world::chunk::{Chunk, ClientChunk};
use crate::world::client::{
    activation_received, activations_taken, border_passed, handed_before, handed_last,
    holds_block, honest, response_taken, responses_taken, ripe_activated, tick_steps, ticked,
    visibility_passed, ClientWorld, InternalReq, InternalResp,
};
use crate::world::dimension::ChunkState;
use crate::world::position::ChunkPosition;
use crate::world::server::ChunkActivated;

verus! {

/// Whether the state is in order for an active chunk: if it is active and
/// holds a block other than air, all six faces of the chunk are resolved,
/// for visibility and for brightness.
pub open spec fn resolved_if_active(state: ChunkState<ClientChunk>) -> bool {
    state is Active && holds_block(state.held()@) ==> state.held().neighbor_direction_visibility_mask
        == 63 && state.held().neighbor_direction_ao_mask == 63
}

/// Whether every active chunk of the world that holds a block other than
/// air has all six faces resolved, for visibility and for brightness.
pub open spec fn active_resolved(world: &ClientWorld) -> bool {
    forall|p: ChunkPosition| #[trigger]
        world.dimension.chunks@.contains_key(p) ==> resolved_if_active(world.dimension.chunks@[p])
}

/// A world without chunks has no active chunk that is not resolved.
pub proof fn lemma_empty_world_resolved(world: &ClientWorld)
    requires
        world.dimension.chunks@ == Map::<ChunkPosition, ChunkState<ClientChunk>>::empty(),
    ensures
        active_resolved(world),
{
}

/// Taking a message that activates a chunk leaves no active chunk
/// unresolved: the chunk named is being generated or as it was.
pub proof fn lemma_activation_keeps_resolved(
    before: &ClientWorld,
    after: &ClientWorld,
    position: ChunkPosition,
    lod: usize,
    bytes: Seq<u8>,
    r: Option<InternalReq>,
)
    requires
        active_resolved(before),
        activation_received(before, after, position, lod, bytes, r),
    ensures
        active_resolved(after),
{
    assert forall|p: ChunkPosition| #[trigger]
        after.dimension.chunks@.contains_key(p) implies resolved_if_active(
        after.dimension.chunks@[p],
    ) by {
        if p != position || r.is_none() {
            assert(before.dimension.chunks@.contains_key(p));
        }
    }
}

/// Putting in a chunk that came back from the background leaves no active
/// chunk unresolved, provided the response is honest: the chunk becomes
/// active at once only if it holds nothing but air.
pub proof fn lemma_response_keeps_resolved(
    before: &ClientWorld,
    after: &ClientWorld,
    resp: InternalResp,
)
    requires
        active_resolved(before),
        response_taken(before, after, resp),
        honest(resp),
    ensures
        active_resolved(after),
{
    assert forall|p: ChunkPosition| #[trigger]
        after.dimension.chunks@.contains_key(p) implies resolved_if_active(
        after.dimension.chunks@[p],
    ) by {
        if p != resp.position {
            assert(before.dimension.chunks@.contains_key(p));
        }
    }
}

/// A share of resolving shared faces leaves no active chunk unresolved: it
/// changes no block and no tag, clears no bit of a chunk's visibility mask
/// and leaves the brightness masks alone.
pub proof fn lemma_visibility_keeps_resolved(
    before: &ClientWorld,
    after: &ClientWorld,
    done: Seq<ChunkPosition>,
)
    requires
        active_resolved(before),
        visibility_passed(before, after, done),
    ensures
        active_resolved(after),
{
    assert forall|p: ChunkPosition| #[trigger]
        after.dimension.chunks@.contains_key(p) implies resolved_if_active(
        after.dimension.chunks@[p],
    ) by {
        assert(before.dimension.chunks@.contains_key(p));
        let was = before.dimension.chunks@[p];
        let now = after.dimension.chunks@[p];
        assert(now.same_tag(was));
        if now is Active && holds_block(now.held()@) {
            assert(before.dimension.present_at(p));
            let i = choose|i: int|
                0 <= i < now.held()@.len() && (#[trigger] now.held()@[i]).block != Block::Air;
            assert(was.held()@[i].block != Block::Air);
            assert(holds_block(was.held()@));
            assert(resolved_if_active(was));
            if !done.contains(p) {
                assert(now.held().same_frame(&was.held()));
            }
        }
    }
}

/// A share of border brightness leaves no active chunk unresolved: it
/// changes chunks in stasis only.
pub proof fn lemma_border_keeps_resolved(
    before: &ClientWorld,
    after: &ClientWorld,
    done: Seq<ChunkPosition>,
)
    requires
        active_resolved(before),
        border_passed(before, after, done),
    ensures
        active_resolved(after),
{
    assert forall|p: ChunkPosition| #[trigger]
        after.dimension.chunks@.contains_key(p) implies resolved_if_active(
        after.dimension.chunks@[p],
    ) by {
        assert(before.dimension.chunks@.contains_key(p));
        assert(after.dimension.chunks@[p].same_tag(before.dimension.chunks@[p]));
        if done.contains(p) {
            assert(before.border_due(p));
        }
    }
}

/// Making active what is ready leaves no active chunk unresolved: a chunk
/// becomes active only with all six faces resolved, for visibility and for
/// brightness.
pub proof fn lemma_activate_keeps_resolved(before: &ClientWorld, after: &ClientWorld)
    requires
        active_resolved(before),
        ripe_activated(before, after),
    ensures
        active_resolved(after),
{
    assert forall|p: ChunkPosition| #[trigger]
        after.dimension.chunks@.contains_key(p) implies resolved_if_active(
        after.dimension.chunks@[p],
    ) by {
        assert(before.dimension.chunks@.contains_key(p));
    }
}

/// Taking messages that activate chunks, one after the other, leaves no
/// active chunk unresolved.
pub proof fn lemma_activations_keep_resolved(
    before: &ClientWorld,
    after: &ClientWorld,
    activations: Seq<ChunkActivated>,
    requests: Seq<InternalReq>,
)
    requires
        active_resolved(before),
        activations_taken(before, after, activations, requests),
    ensures
        active_resolved(after),
    decreases activations.len(),
{
    if activations.len() > 0 {
        let m = activations.last();
        let handed = crate::world::client::activation_blocks(m.lod, m.bytes@).is_some();
        let mid = choose|mid: ClientWorld|
            activations_taken(
                before,
                &mid,
                activations.drop_last(),
                handed_before(requests, handed),
            ) && #[trigger] activation_received(
                &mid,
                after,
                m.position,
                m.lod,
                m.bytes@,
                handed_last(requests, handed),
            );
        lemma_activations_keep_resolved(
            before,
            &mid,
            activations.drop_last(),
            handed_before(requests, handed),
        );
        lemma_activation_keeps_resolved(
            &mid,
            after,
            m.position,
            m.lod,
            m.bytes@,
            handed_last(requests, handed),
        );
    }
}

/// Putting in chunks that came back from the background, one after the
/// other, leaves no active chunk unresolved, provided the responses are
/// honest.
pub proof fn lemma_responses_keep_resolved(
    before: &ClientWorld,
    after: &ClientWorld,
    responses: Seq<InternalResp>,
)
    requires
        active_resolved(before),
        responses_taken(before, after, responses),
        forall|k: int| 0 <= k < responses.len() ==> honest(#[trigger] responses[k]),
    ensures
        active_resolved(after),
    decreases responses.len(),
{
    if responses.len() > 0 {
        let mid = choose|mid: ClientWorld|
            responses_taken(before, &mid, responses.drop_last()) && #[trigger] response_taken(
                &mid,
                after,
                responses.last(),
            );
        assert forall|k: int| 0 <= k < responses.drop_last().len() implies honest(
            #[trigger] responses.drop_last()[k],
        ) by {
            assert(responses.drop_last()[k] == responses[k]);
        }
        lemma_responses_keep_resolved(before, &mid, responses.drop_last());
        lemma_response_keeps_resolved(&mid, after, responses.last());
    }
}

/// In a world that the pipeline alone has worked on, every active chunk
/// that holds a block other than air has all six faces resolved, for
/// visibility and for brightness: a fixed tick that takes no update keeps
/// this, provided the chunks that came back from the background are honest.
pub proof fn lemma_tick_keeps_resolved(
    before: &ClientWorld,
    after: &ClientWorld,
    activations: Seq<ChunkActivated>,
    responses: Seq<InternalResp>,
    requests: Seq<InternalReq>,
)
    requires
        active_resolved(before),
        ticked(
            before,
            after,
            activations,
            responses,
            Seq::<crate::world::server::ChunkUpdated>::empty(),
            requests,
        ),
        forall|k: int| 0 <= k < responses.len() ==> honest(#[trigger] responses[k]),
    ensures
        active_resolved(after),
{
    let updates = Seq::<crate::world::server::ChunkUpdated>::empty();
    let (a, b, c, d, e, seen, lit) = choose|
        a: ClientWorld,
        b: ClientWorld,
        c: ClientWorld,
        d: ClientWorld,
        e: ClientWorld,
        seen: Seq<ChunkPosition>,
        lit: Seq<ChunkPosition>,
    | #[trigger]
        tick_steps(
            before,
            &a,
            &b,
            &c,
            &d,
            &e,
            after,
            seen,
            lit,
            activations,
            responses,
            updates,
            requests,
        );
    lemma_activations_keep_resolved(before, &a, activations, requests);
    lemma_responses_keep_resolved(&a, &b, responses);
    lemma_visibility_keeps_resolved(&b, &c, seen);
    lemma_border_keeps_resolved(&c, &d, lit);
    lemma_activate_keeps_resolved(&d, &e);
    assert(crate::world::client::updates_taken(&e, after, updates));
    assert(*after == e);
}

} // verus!
