//! What the operations of the semantic index keep, and what they change.

use crate::model::{NodeHash, NodeId, Section, StoreError};
use crate::semantic::{
    all_finite, component, first_section, is_finite, is_status_of, is_work_of,
    law_embedding_round_trip, outcome_of, records_failure, stores_embedding, ChunkState, ChunkView, ProfileView, SemanticChunk,
    SemanticChunkWork, SemanticIndexStatus, SemanticView, SemanticWriteOutcome,
};
use crate::shape::lemma_filter_facts;
use std::sync::Arc;
use vstd::prelude::*;

verus! {

/// Chunks of every node but one.
pub open spec fn of_others(node_id: NodeId) -> spec_fn(ChunkView) -> bool {
    |c: ChunkView| c.node_id != node_id
}

/// Chunks of one node under every profile but one.
pub open spec fn elsewhere(node_id: NodeId, profile: usize) -> spec_fn(ChunkView) -> bool {
    |c: ChunkView| c.node_id == node_id && c.profile != profile
}

/// Chunks of one node under one profile.
pub open spec fn of_node(node_id: NodeId, profile: usize) -> spec_fn(ChunkView) -> bool {
    |c: ChunkView| c.node_id == node_id && c.profile == profile
}

/// Chunks that stand in a state under the active profile.
pub open spec fn in_state(active: Option<usize>, state: ChunkState) -> spec_fn(ChunkView) -> bool {
    |c: ChunkView| active == Some(c.profile) && c.state == state
}

pub proof fn lemma_filter_of_sum<T>(a: Seq<T>, b: Seq<T>, keep: spec_fn(T) -> bool)
    ensures
        (a + b).filter(keep) == a.filter(keep) + b.filter(keep),
    decreases b.len(),
{
    reveal(Seq::filter);
    if b.len() == 0 {
        assert(a + b =~= a);
        assert(a.filter(keep) + b.filter(keep) =~= a.filter(keep));
    } else {
        lemma_filter_of_sum(a, b.drop_last(), keep);
        assert((a + b).drop_last() =~= a + b.drop_last());
        assert((a + b).last() == b.last());
        assert((a + b).filter(keep) =~= a.filter(keep) + b.filter(keep));
    }
}

pub proof fn lemma_filter_of_filter<T>(
    rows: Seq<T>,
    outer: spec_fn(T) -> bool,
    inner: spec_fn(T) -> bool,
)
    requires
        forall|x: T| #[trigger] outer(x) ==> inner(x),
    ensures
        rows.filter(inner).filter(outer) == rows.filter(outer),
    decreases rows.len(),
{
    reveal(Seq::filter);
    if rows.len() > 0 {
        lemma_filter_of_filter(rows.drop_last(), outer, inner);
        let x = rows.last();
        let sub = rows.drop_last().filter(inner);
        if inner(x) {
            assert(sub.push(x).drop_last() =~= sub);
            assert(sub.push(x).last() == x);
        }
        assert(outer(x) ==> inner(x));
    }
}

pub proof fn lemma_filter_none<T>(rows: Seq<T>, keep: spec_fn(T) -> bool)
    requires
        forall|i: int| 0 <= i < rows.len() ==> !keep(#[trigger] rows[i]),
    ensures
        rows.filter(keep) == Seq::<T>::empty(),
    decreases rows.len(),
{
    reveal(Seq::filter);
    if rows.len() > 0 {
        lemma_filter_none(rows.drop_last(), keep);
        assert(!keep(rows[rows.len() - 1]));
    }
}

pub proof fn lemma_filter_all<T>(rows: Seq<T>, keep: spec_fn(T) -> bool)
    requires
        forall|i: int| 0 <= i < rows.len() ==> keep(#[trigger] rows[i]),
    ensures
        rows.filter(keep) == rows,
    decreases rows.len(),
{
    reveal(Seq::filter);
    if rows.len() > 0 {
        lemma_filter_all(rows.drop_last(), keep);
        assert(keep(rows[rows.len() - 1]));
        assert(rows.drop_last().push(rows.last()) =~= rows);
    }
}

/// Replacing the chunks of one node leaves the chunks of every other node as they were and
/// in their order.
pub proof fn law_replacing_chunks_leaves_other_nodes(
    t: SemanticView,
    node_id: NodeId,
    profile: ProfileView,
    chunks: Seq<SemanticChunk>,
    updated_at: u64,
)
    requires
        forall|i: int| 0 <= i < chunks.len() ==> (#[trigger] chunks[i]).node_id == node_id,
    ensures
        t.replaced(node_id, profile, chunks, updated_at).chunks.filter(of_others(node_id))
            == t.chunks.filter(of_others(node_id)),
        forall|c: ChunkView|
            c.node_id != node_id ==> (#[trigger] t.chunks.contains(c) <==> t.replaced(
                node_id,
                profile,
                chunks,
                updated_at,
            ).chunks.contains(c)),
{
    let after = t.replaced(node_id, profile, chunks, updated_at);
    let u = t.activated(profile);
    let p = u.active->0;
    let keep = |c: ChunkView| !(c.node_id == node_id && c.profile == p);
    let added = Seq::new(
        chunks.len(),
        |i: int| u.fresh(p, chunks[i], profile.dimensions, updated_at),
    );
    let others = of_others(node_id);
    assert(after.chunks == u.chunks.filter(keep) + added);
    assert(u.chunks == t.chunks);
    lemma_filter_of_sum(u.chunks.filter(keep), added, others);
    lemma_filter_of_filter(u.chunks, others, keep);
    lemma_filter_none(added, others);
    lemma_filter_facts(t.chunks, others);
    lemma_filter_facts(after.chunks, others);
    assert forall|c: ChunkView| c.node_id != node_id implies (#[trigger] t.chunks.contains(c)
        <==> after.chunks.contains(c)) by {
        assert(others(c));
        assert(t.chunks.filter(others).contains(c) <==> t.chunks.contains(c));
        assert(after.chunks.filter(others).contains(c) <==> after.chunks.contains(c));
    }
}

/// Replacing the chunks of one node under a profile leaves those that it has under other
/// profiles, and puts exactly the given ones, in their order, in the place of the others.
pub proof fn law_replacing_chunks_stores_the_given_ones(
    t: SemanticView,
    node_id: NodeId,
    profile: ProfileView,
    chunks: Seq<SemanticChunk>,
    updated_at: u64,
)
    requires
        t.wf(),
        t.profiles.len() <= usize::MAX,
        forall|i: int| 0 <= i < chunks.len() ==> (#[trigger] chunks[i]).node_id == node_id,
    ensures
        ({
            let after = t.replaced(node_id, profile, chunks, updated_at);
            let p = after.active->0;
            let stored = after.chunks.filter(of_node(node_id, p));
            &&& after.chunks.filter(elsewhere(node_id, p)) == t.chunks.filter(
                elsewhere(node_id, p),
            )
            &&& stored.len() == chunks.len()
            &&& forall|i: int|
                0 <= i < chunks.len() ==> {
                    let row = #[trigger] stored[i];
                    &&& row.section_id == chunks[i].section_id
                    &&& row.position == chunks[i].position
                    &&& row.start_byte == chunks[i].start_byte
                    &&& row.end_byte == chunks[i].end_byte
                    &&& row.input == chunks[i].input@
                    &&& row.input_hash == chunks[i].input_hash
                    &&& row.attempts == 0
                    &&& row.last_error is None
                    &&& row.updated_at == updated_at
                    &&& (row.state == ChunkState::Ready || row.state == ChunkState::Pending)
                    &&& (row.state == ChunkState::Ready <==> row.embedding is Some)
                }
        }),
{
    let after = t.replaced(node_id, profile, chunks, updated_at);
    let u = t.activated(profile);
    let p = u.active->0;
    let keep = |c: ChunkView| !(c.node_id == node_id && c.profile == p);
    let added = Seq::new(
        chunks.len(),
        |i: int| u.fresh(p, chunks[i], profile.dimensions, updated_at),
    );
    let kept = u.chunks.filter(keep);
    assert(after.chunks == kept + added);
    let apart = elsewhere(node_id, p);
    lemma_filter_of_sum(kept, added, apart);
    lemma_filter_of_filter(u.chunks, apart, keep);
    lemma_filter_none(added, apart);
    let mine = of_node(node_id, p);
    lemma_filter_of_sum(kept, added, mine);
    lemma_filter_facts(u.chunks, keep);
    assert forall|i: int| 0 <= i < kept.len() implies !mine(#[trigger] kept[i]) by {
        assert(keep(kept[i]));
    }
    lemma_filter_none(kept, mine);
    lemma_filter_all(added, mine);
    assert(after.chunks.filter(mine) =~= added);
}

proof fn lemma_position_of(t: SemanticView, profile: ProfileView, i: int)
    requires
        0 <= i,
    ensures
        match t.position_of(profile, i) {
            Some(k) => i <= k < t.profiles.len() && t.profiles[k] == profile,
            None => forall|k: int| i <= k < t.profiles.len() ==> #[trigger] t.profiles[k] != profile,
        },
    decreases t.profiles.len() - i,
{
    if i < t.profiles.len() && t.profiles[i] != profile {
        lemma_position_of(t, profile, i + 1);
    }
}

/// Activating a profile makes exactly that profile the active one, keeps every known profile
/// in its place, adds it only where it was unknown, and leaves the chunks. The revision moves
/// exactly when another profile, or none, was active.
pub proof fn law_activation_selects_the_profile(t: SemanticView, profile: ProfileView)
    requires
        t.wf(),
        t.profiles.len() < usize::MAX,
        t.revision < u64::MAX,
    ensures
        ({
            let after = t.activated(profile);
            &&& after.wf()
            &&& after.active is Some
            &&& after.profiles[after.active->0 as int] == profile
            &&& forall|k: int|
                0 <= k < t.profiles.len() ==> after.profiles[k] == #[trigger] t.profiles[k]
            &&& after.profiles.len() == t.profiles.len() + if t.profiles.contains(profile) {
                0int
            } else {
                1int
            }
            &&& after.chunks == t.chunks
            &&& after.revision == t.revision + if after.active == t.active {
                0int
            } else {
                1int
            }
            &&& (t.active is Some && t.profiles[t.active->0 as int] != profile ==> after.revision
                != t.revision)
            &&& t.active is None ==> after.revision != t.revision
            &&& after.activated(profile) == after
        }),
{
    lemma_position_of(t, profile, 0);
    let after = t.activated(profile);
    lemma_position_of(after, profile, 0);
    match t.position_of(profile, 0) {
        Some(k) => {
            assert(t.profiles.contains(t.profiles[k]));
            assert(after.profiles == t.profiles);
            lemma_same_position(t, after, profile, 0);
        },
        None => {
            if t.profiles.contains(profile) {
                let k = choose|k: int| 0 <= k < t.profiles.len() && t.profiles[k] == profile;
                assert(t.profiles[k] != profile);
            }
            assert(after.profiles[t.profiles.len() as int] == profile);
            let k = after.position_of(profile, 0)->0;
            if k < t.profiles.len() {
                assert(t.profiles[k] == after.profiles[k]);
            }
        },
    }
}

proof fn lemma_same_position(t: SemanticView, u: SemanticView, profile: ProfileView, i: int)
    requires
        0 <= i,
        t.profiles == u.profiles,
    ensures
        t.position_of(profile, i) == u.position_of(profile, i),
    decreases t.profiles.len() - i,
{
    if i < t.profiles.len() {
        lemma_same_position(t, u, profile, i + 1);
    }
}

/// Whether a stored chunk has a vector for an input under a profile.
pub open spec fn has_vector(
    c: ChunkView,
    profile: usize,
    input_hash: NodeHash,
    dimensions: u32,
) -> bool {
    &&& c.profile == profile
    &&& c.input_hash == input_hash
    &&& c.state == ChunkState::Ready
    &&& c.embedding is Some
    &&& c.embedding->0.len() == dimensions * 4
}

proof fn lemma_ready_vector(
    t: SemanticView,
    profile: usize,
    input_hash: NodeHash,
    dimensions: u32,
    i: int,
)
    requires
        0 <= i,
    ensures
        match t.ready_vector(profile, input_hash, dimensions, i) {
            Some(v) => exists|k: int|
                i <= k < t.chunks.len() && has_vector(
                    #[trigger] t.chunks[k],
                    profile,
                    input_hash,
                    dimensions,
                ) && t.chunks[k].embedding == Some(v),
            None => forall|k: int|
                i <= k < t.chunks.len() ==> !has_vector(
                    #[trigger] t.chunks[k],
                    profile,
                    input_hash,
                    dimensions,
                ),
        },
    decreases t.chunks.len() - i,
{
    if i < t.chunks.len() && !has_vector(t.chunks[i], profile, input_hash, dimensions) {
        lemma_ready_vector(t, profile, input_hash, dimensions, i + 1);
    }
}

/// The rows that a replacement adds.
spec fn added_rows(
    u: SemanticView,
    p: usize,
    chunks: Seq<SemanticChunk>,
    dimensions: u32,
    updated_at: u64,
) -> Seq<ChunkView> {
    Seq::new(chunks.len(), |i: int| u.fresh(p, chunks[i], dimensions, updated_at))
}

proof fn lemma_replaced_rows(
    t: SemanticView,
    node_id: NodeId,
    profile: ProfileView,
    chunks: Seq<SemanticChunk>,
    updated_at: u64,
)
    requires
        forall|i: int| 0 <= i < chunks.len() ==> (#[trigger] chunks[i]).node_id == node_id,
    ensures
        ({
            let after = t.replaced(node_id, profile, chunks, updated_at);
            let u = t.activated(profile);
            let p = after.active->0;
            &&& u.chunks == t.chunks
            &&& after.active == u.active
            &&& after.chunks.filter(of_node(node_id, p)) == added_rows(
                u,
                p,
                chunks,
                profile.dimensions,
                updated_at,
            )
        }),
{
    let after = t.replaced(node_id, profile, chunks, updated_at);
    let u = t.activated(profile);
    let p = u.active->0;
    let keep = |c: ChunkView| !(c.node_id == node_id && c.profile == p);
    let added = added_rows(u, p, chunks, profile.dimensions, updated_at);
    let kept = u.chunks.filter(keep);
    let mine = of_node(node_id, p);
    assert(after.chunks =~= kept + added);
    lemma_filter_of_sum(kept, added, mine);
    lemma_filter_facts(u.chunks, keep);
    assert forall|i: int| 0 <= i < kept.len() implies !mine(#[trigger] kept[i]) by {
        assert(keep(kept[i]));
    }
    lemma_filter_none(kept, mine);
    lemma_filter_all(added, mine);
    assert(after.chunks.filter(mine) =~= added);
}

/// Whether a stored chunk has the vector for an input under a profile.
pub open spec fn is_source(
    t: SemanticView,
    profile: usize,
    input_hash: NodeHash,
    dimensions: u32,
    c: ChunkView,
) -> bool {
    t.chunks.contains(c) && has_vector(c, profile, input_hash, dimensions)
}

proof fn lemma_vector_source(
    t: SemanticView,
    profile: usize,
    input_hash: NodeHash,
    dimensions: u32,
    c: ChunkView,
) -> (source: ChunkView)
    ensures
        match t.ready_vector(profile, input_hash, dimensions, 0) {
            Some(v) => is_source(t, profile, input_hash, dimensions, source) && source.embedding
                == Some(v),
            None => !is_source(t, profile, input_hash, dimensions, c),
        },
{
    lemma_ready_vector(t, profile, input_hash, dimensions, 0);
    match t.ready_vector(profile, input_hash, dimensions, 0) {
        Some(v) => {
            let k = choose|k: int|
                0 <= k < t.chunks.len() && has_vector(
                    #[trigger] t.chunks[k],
                    profile,
                    input_hash,
                    dimensions,
                ) && t.chunks[k].embedding == Some(v);
            assert(t.chunks.contains(t.chunks[k]));
            t.chunks[k]
        },
        None => {
            if t.chunks.contains(c) {
                let k = choose|k: int| 0 <= k < t.chunks.len() && t.chunks[k] == c;
                assert(!has_vector(t.chunks[k], profile, input_hash, dimensions));
            }
            c
        },
    }
}

/// A replaced chunk is ready where a stored chunk of the profile already has a vector for the
/// same input; it then takes over the vector of such a chunk. No vector is made up.
pub proof fn law_replaced_chunks_reuse_vectors(
    t: SemanticView,
    node_id: NodeId,
    profile: ProfileView,
    chunks: Seq<SemanticChunk>,
    updated_at: u64,
    i: int,
    c: ChunkView,
) -> (source: ChunkView)
    requires
        forall|i: int| 0 <= i < chunks.len() ==> (#[trigger] chunks[i]).node_id == node_id,
        0 <= i < chunks.len(),
    ensures
        ({
            let after = t.replaced(node_id, profile, chunks, updated_at);
            let p = after.active->0;
            let row = after.chunks.filter(of_node(node_id, p))[i];
            let hash = chunks[i].input_hash;
            &&& is_source(t, p, hash, profile.dimensions, c) ==> row.embedding is Some
            &&& row.embedding is Some ==> is_source(t, p, hash, profile.dimensions, source)
                && source.embedding == row.embedding
        }),
{
    lemma_replaced_rows(t, node_id, profile, chunks, updated_at);
    let after = t.replaced(node_id, profile, chunks, updated_at);
    let u = t.activated(profile);
    let p = after.active->0;
    lemma_vector_source(u, p, chunks[i].input_hash, profile.dimensions, c)
}

proof fn lemma_standing_counts(t: SemanticView, state: ChunkState, n: int)
    requires
        0 <= n <= t.chunks.len(),
    ensures
        t.standing(state, n) == t.chunks.take(n).filter(in_state(t.active, state)).len(),
    decreases n,
{
    reveal(Seq::filter);
    if n > 0 {
        lemma_standing_counts(t, state, n - 1);
        assert(t.chunks.take(n).drop_last() =~= t.chunks.take(n - 1));
        assert(t.chunks.take(n).last() == t.chunks[n - 1]);
    }
}

/// A state's count is the number of chunks of the active profile that are in the state.
pub proof fn law_status_counts_chunks(t: SemanticView, state: ChunkState)
    ensures
        t.standing(state, t.chunks.len() as int) == t.chunks.filter(
            in_state(t.active, state),
        ).len(),
{
    lemma_standing_counts(t, state, t.chunks.len() as int);
    assert(t.chunks.take(t.chunks.len() as int) =~= t.chunks);
}

proof fn lemma_standing_grows(t: SemanticView, state: ChunkState, i: int, j: int)
    requires
        i <= j,
    ensures
        t.standing(state, i) <= t.standing(state, j),
    decreases j - i,
{
    if i < j {
        lemma_standing_grows(t, state, i, j - 1);
    }
}

/// A claim takes pending chunks of the active profile only, and the earlier before the later.
/// What it takes is in process afterwards with one more attempt; a claimed chunk keeps all
/// else, and every other chunk stays as it was.
pub proof fn law_claims_take_the_earliest_pending(
    t: SemanticView,
    limit: int,
    updated_at: u64,
    i: int,
    j: int,
)
    requires
        0 <= i < t.chunks.len(),
        0 <= j < t.chunks.len(),
    ensures
        ({
            let after = t.claimed(limit, updated_at);
            let old_row = t.chunks[i];
            let row = after.chunks[i];
            let pending = in_state(t.active, ChunkState::Pending);
            &&& after.chunks.len() == t.chunks.len()
            &&& after.profiles == t.profiles && after.active == t.active && after.revision
                == t.revision
            &&& row != old_row ==> pending(old_row)
            &&& pending(old_row) && row != old_row ==> row.state == ChunkState::Processing
                && row.updated_at == updated_at
            &&& pending(old_row) && row != old_row && old_row.attempts < u32::MAX ==> row.attempts
                == old_row.attempts + 1
            &&& row == (ChunkView {
                state: row.state,
                attempts: row.attempts,
                updated_at: row.updated_at,
                ..old_row
            })
            &&& i < j && pending(old_row) && pending(t.chunks[j]) && after.chunks[j].state
                == ChunkState::Processing ==> row.state == ChunkState::Processing
            &&& limit > 0 && pending(old_row) && (forall|k: int|
                0 <= k < i ==> !pending(#[trigger] t.chunks[k])) ==> row.state
                == ChunkState::Processing
        }),
{
    let pending = in_state(t.active, ChunkState::Pending);
    if i < j {
        lemma_standing_grows(t, ChunkState::Pending, i, j);
    }
    if forall|k: int| 0 <= k < i ==> !pending(#[trigger] t.chunks[k]) {
        lemma_none_standing(t, ChunkState::Pending, i);
    }
}

proof fn lemma_none_standing(t: SemanticView, state: ChunkState, n: int)
    requires
        0 <= n <= t.chunks.len(),
        forall|k: int| 0 <= k < n ==> !in_state(t.active, state)(#[trigger] t.chunks[k]),
    ensures
        t.standing(state, n) == 0,
    decreases n,
{
    if n > 0 {
        lemma_none_standing(t, state, n - 1);
        assert(!in_state(t.active, state)(t.chunks[n - 1]));
    }
}

proof fn lemma_claim_counts(t: SemanticView, limit: int, updated_at: u64, n: int)
    requires
        0 <= limit,
        0 <= n <= t.chunks.len(),
    ensures
        ({
            let pending = t.standing(ChunkState::Pending, n);
            let taken = t.claims(limit, n).len();
            let after = t.claimed(limit, updated_at);
            &&& taken == if pending < limit {
                pending as int
            } else {
                limit
            }
            &&& after.standing(ChunkState::Pending, n) + taken == pending
            &&& after.standing(ChunkState::Processing, n) == t.standing(
                ChunkState::Processing,
                n,
            ) + taken
            &&& after.standing(ChunkState::Ready, n) == t.standing(ChunkState::Ready, n)
            &&& after.standing(ChunkState::Failed, n) == t.standing(ChunkState::Failed, n)
        }),
    decreases n,
{
    if n > 0 {
        lemma_claim_counts(t, limit, updated_at, n - 1);
    }
}

/// A claim takes as many chunks as are pending, up to the limit, and moves just as many from
/// pending to processing.
pub proof fn law_claims_move_chunks(t: SemanticView, limit: int, updated_at: u64)
    requires
        0 <= limit,
    ensures
        ({
            let n = t.chunks.len() as int;
            let after = t.claimed(limit, updated_at);
            let pending = t.chunks.filter(in_state(t.active, ChunkState::Pending)).len();
            let taken = t.claims(limit, n).len();
            &&& taken == if pending < limit {
                pending as int
            } else {
                limit
            }
            &&& after.chunks.filter(in_state(t.active, ChunkState::Pending)).len() == pending - taken
            &&& after.chunks.filter(in_state(t.active, ChunkState::Processing)).len()
                == t.chunks.filter(in_state(t.active, ChunkState::Processing)).len() + taken
        }),
{
    lemma_claim_counts(t, limit, updated_at, t.chunks.len() as int);
    let after = t.claimed(limit, updated_at);
    law_status_counts_chunks(t, ChunkState::Pending);
    law_status_counts_chunks(t, ChunkState::Processing);
    law_status_counts_chunks(after, ChunkState::Pending);
    law_status_counts_chunks(after, ChunkState::Processing);
}

proof fn lemma_claims_within(t: SemanticView, limit: int, n: int, k: int)
    requires
        0 <= n <= t.chunks.len(),
        0 <= k < t.claims(limit, n).len(),
    ensures
        exists|i: int|
            0 <= i < n && t.is_claimed(limit, i) && t.claims(limit, n)[k] == #[trigger] t.chunks[i],
    decreases n,
{
    if n > 0 {
        if k < t.claims(limit, n - 1).len() {
            lemma_claims_within(t, limit, n - 1, k);
            let i = choose|i: int|
                0 <= i < n - 1 && t.is_claimed(limit, i) && t.claims(limit, n - 1)[k]
                    == #[trigger] t.chunks[i];
            assert(t.claims(limit, n)[k] == t.chunks[i]);
        } else {
            assert(t.claims(limit, n)[k] == t.chunks[n - 1]);
        }
    }
}

/// The work that a claim hands out is that of chunks which it moved to processing.
pub proof fn law_claimed_work_is_in_process(t: SemanticView, limit: int, updated_at: u64, k: int)
    requires
        0 <= k < t.claims(limit, t.chunks.len() as int).len(),
    ensures
        exists|i: int|
            0 <= i < t.chunks.len() && t.claims(limit, t.chunks.len() as int)[k]
                == #[trigger] t.chunks[i] && in_state(t.active, ChunkState::Pending)(t.chunks[i])
                && in_state(t.active, ChunkState::Processing)(
                t.claimed(limit, updated_at).chunks[i],
            ),
{
    let n = t.chunks.len() as int;
    lemma_claims_within(t, limit, n, k);
    let i = choose|i: int|
        0 <= i < n && t.is_claimed(limit, i) && t.claims(limit, n)[k] == #[trigger] t.chunks[i];
    assert(t.claimed(limit, updated_at).chunks[i].state == ChunkState::Processing);
}

/// Whether the chunk is in process for the work.
pub open spec fn awaits(active: Option<usize>, c: ChunkView, work: SemanticChunkWork) -> bool {
    &&& active == Some(c.profile)
    &&& c.state == ChunkState::Processing
    &&& c.node_id == work.node_id
    &&& c.section_id == work.section_id
    &&& c.position == work.position
    &&& c.input_hash == work.input_hash
}

proof fn lemma_answering_none_or_some(t: SemanticView, work: SemanticChunkWork, n: int)
    requires
        0 <= n <= t.chunks.len(),
    ensures
        t.answering(work, n) == 0 <==> forall|i: int|
            0 <= i < n ==> !awaits(t.active, #[trigger] t.chunks[i], work),
        forall|i: int, j: int|
            0 <= i < j < n && awaits(t.active, #[trigger] t.chunks[i], work) && awaits(
                t.active,
                #[trigger] t.chunks[j],
                work,
            ) ==> t.answering(work, n) >= 2,
        t.answering(work, n) >= 2 ==> exists|i: int, j: int|
            0 <= i < j < n && awaits(t.active, #[trigger] t.chunks[i], work) && awaits(
                t.active,
                #[trigger] t.chunks[j],
                work,
            ),
    decreases n,
{
    if n > 0 {
        lemma_answering_none_or_some(t, work, n - 1);
        let last = t.chunks[n - 1];
        assert(t.answers(n - 1, work) == awaits(t.active, last, work));
        if awaits(t.active, last, work) {
            if t.answering(work, n - 1) > 0 {
                let i = choose|i: int|
                    0 <= i < n - 1 && awaits(t.active, #[trigger] t.chunks[i], work);
                assert(awaits(t.active, t.chunks[i], work) && awaits(
                    t.active,
                    t.chunks[n - 1],
                    work,
                ));
            }
        } else if t.answering(work, n - 1) >= 2 {
            let (i, j) = choose|i: int, j: int|
                0 <= i < j < n - 1 && awaits(t.active, #[trigger] t.chunks[i], work) && awaits(
                    t.active,
                    #[trigger] t.chunks[j],
                    work,
                );
            assert(awaits(t.active, t.chunks[i], work) && awaits(t.active, t.chunks[j], work));
        }
    }
}

/// A result is stored exactly when one chunk of the active profile, and no second, is in
/// process for the work. That chunk takes the state, the vector and the error; all others
/// stay. The same work is stale the next time.
pub proof fn law_results_go_to_the_claimed_chunk(
    t: SemanticView,
    work: SemanticChunkWork,
    state: ChunkState,
    embedding: Option<Seq<u8>>,
    last_error: Option<Seq<char>>,
    updated_at: u64,
    i: int,
)
    requires
        0 <= i < t.chunks.len(),
        state != ChunkState::Processing,
    ensures
        ({
            let after = t.resolved(work, state, embedding, last_error, updated_at);
            &&& after.chunks.len() == t.chunks.len()
            &&& after.active == t.active && after.profiles == t.profiles
            &&& outcome_of(t, work) == SemanticWriteOutcome::Stored <==> {
                &&& exists|k: int|
                    0 <= k < t.chunks.len() && awaits(t.active, #[trigger] t.chunks[k], work)
                &&& forall|j: int, k: int|
                    0 <= j < t.chunks.len() && 0 <= k < t.chunks.len() && awaits(
                        t.active,
                        #[trigger] t.chunks[j],
                        work,
                    ) && awaits(t.active, #[trigger] t.chunks[k], work) ==> j == k
            }
            &&& after.chunks[i] == if awaits(t.active, t.chunks[i], work) {
                ChunkView { state, embedding, last_error, updated_at, ..t.chunks[i] }
            } else {
                t.chunks[i]
            }
            &&& outcome_of(after, work) == SemanticWriteOutcome::Stale
        }),
{
    let n = t.chunks.len() as int;
    let after = t.resolved(work, state, embedding, last_error, updated_at);
    lemma_answering_none_or_some(t, work, n);
    lemma_answering_none_or_some(after, work, n);
    assert forall|k: int| 0 <= k < n implies !awaits(
        after.active,
        #[trigger] after.chunks[k],
        work,
    ) by {
        assert(t.answers(k, work) == awaits(t.active, t.chunks[k], work));
    }
    assert(t.answers(i, work) == awaits(t.active, t.chunks[i], work));
    let a = t.answering(work, n);
    if a == 1 {
        assert forall|j: int, k: int|
            0 <= j < n && 0 <= k < n && awaits(t.active, #[trigger] t.chunks[j], work) && awaits(
                t.active,
                #[trigger] t.chunks[k],
                work,
            ) implies j == k by {
            if j < k {
                assert(a >= 2);
            }
            if k < j {
                assert(a >= 2);
            }
        }
    } else if a >= 2 {
        let (j, k) = choose|j: int, k: int|
            0 <= j < k < n && awaits(t.active, #[trigger] t.chunks[j], work) && awaits(
                t.active,
                #[trigger] t.chunks[k],
                work,
            );
        assert(j != k && awaits(t.active, t.chunks[j], work) && awaits(
            t.active,
            t.chunks[k],
            work,
        ));
    }
}

proof fn lemma_requeue_counts(t: SemanticView, state: ChunkState, updated_at: u64, n: int)
    requires
        0 <= n <= t.chunks.len(),
        state != ChunkState::Pending,
    ensures
        ({
            let after = t.requeued(state, updated_at);
            &&& after.standing(state, n) == 0
            &&& after.standing(ChunkState::Pending, n) == t.standing(ChunkState::Pending, n)
                + t.standing(state, n)
        }),
    decreases n,
{
    if n > 0 {
        lemma_requeue_counts(t, state, updated_at, n - 1);
    }
}

/// Requeueing leaves no chunk of the active profile in the state, makes as many pending,
/// clears their vector and error, and leaves every other chunk.
pub proof fn law_requeueing_makes_pending(t: SemanticView, state: ChunkState, updated_at: u64, i: int)
    requires
        state != ChunkState::Pending,
        0 <= i < t.chunks.len(),
    ensures
        ({
            let after = t.requeued(state, updated_at);
            let row = after.chunks[i];
            &&& after.chunks.len() == t.chunks.len()
            &&& after.active == t.active && after.profiles == t.profiles
            &&& after.chunks.filter(in_state(t.active, state)).len() == 0
            &&& after.chunks.filter(in_state(t.active, ChunkState::Pending)).len()
                == t.chunks.filter(in_state(t.active, ChunkState::Pending)).len()
                + t.chunks.filter(in_state(t.active, state)).len()
            &&& !in_state(t.active, state)(t.chunks[i]) ==> row == t.chunks[i]
            &&& in_state(t.active, state)(t.chunks[i]) ==> {
                &&& row.state == ChunkState::Pending
                &&& row.embedding is None
                &&& row.last_error is None
                &&& row.updated_at == updated_at
                &&& row.node_id == t.chunks[i].node_id
                &&& row.section_id == t.chunks[i].section_id
                &&& row.position == t.chunks[i].position
                &&& row.input == t.chunks[i].input
                &&& row.input_hash == t.chunks[i].input_hash
                &&& row.attempts == t.chunks[i].attempts
                &&& row.profile == t.chunks[i].profile
            }
        }),
{
    let after = t.requeued(state, updated_at);
    lemma_requeue_counts(t, state, updated_at, t.chunks.len() as int);
    law_status_counts_chunks(t, state);
    law_status_counts_chunks(t, ChunkState::Pending);
    law_status_counts_chunks(after, state);
    law_status_counts_chunks(after, ChunkState::Pending);
}

/// Clearing the index leaves no chunk and no active profile, keeps the known profiles, and
/// moves the revision exactly when a profile was active. A second clearing changes nothing.
pub proof fn law_clearing_empties_the_index(t: SemanticView)
    requires
        t.revision < u64::MAX,
    ensures
        ({
            let after = t.cleared();
            &&& forall|c: ChunkView| !#[trigger] after.chunks.contains(c)
            &&& after.active is None
            &&& after.profiles == t.profiles
            &&& t.active is None <==> after.revision == t.revision
            &&& t.active is Some ==> after.revision == t.revision + 1
            &&& after.cleared() == after
        }),
{
}

proof fn lemma_first_section(sections: Seq<Arc<Section>>, id: NodeId, i: int)
    requires
        0 <= i,
    ensures
        first_section(sections, id, i) is Some <==> exists|k: int|
            i <= k < sections.len() && (#[trigger] sections[k]).id == id,
    decreases sections.len() - i,
{
    if i < sections.len() && sections[i].id != id {
        lemma_first_section(sections, id, i + 1);
    }
}

/// Dropping orphans keeps exactly the chunks whose section exists; the revision moves exactly
/// when a chunk was lost.
pub proof fn law_orphans_are_dropped(t: SemanticView, sections: Seq<Arc<Section>>, c: ChunkView)
    requires
        t.revision < u64::MAX,
    ensures
        ({
            let after = t.anchored(sections);
            &&& after.chunks.contains(c) <==> t.chunks.contains(c) && exists|k: int|
                0 <= k < sections.len() && (#[trigger] sections[k]).id == c.section_id
            &&& after.active == t.active && after.profiles == t.profiles
            &&& after.chunks.len() <= t.chunks.len()
            &&& after.revision == t.revision + if after.chunks.len() < t.chunks.len() {
                1int
            } else {
                0int
            }
            &&& t.chunks.contains(c) && !after.chunks.contains(c) ==> after.revision != t.revision
        }),
{
    let keep = |c: ChunkView| crate::semantic::is_anchored(sections, c);
    lemma_filter_facts(t.chunks, keep);
    lemma_first_section(sections, c.section_id, 0);
    let after = t.anchored(sections);
    assert(after.chunks == t.chunks.filter(keep));
    assert(after.chunks.contains(c) <==> t.chunks.contains(c) && keep(c));
    if t.chunks.contains(c) && !after.chunks.contains(c) {
        lemma_filter_loses(t.chunks, keep, c);
    }
}

proof fn lemma_filter_loses<T>(rows: Seq<T>, keep: spec_fn(T) -> bool, x: T)
    requires
        rows.contains(x),
        !keep(x),
    ensures
        rows.filter(keep).len() < rows.len(),
    decreases rows.len(),
{
    reveal(Seq::filter);
    let init = rows.drop_last();
    lemma_filter_facts(init, keep);
    let j = choose|j: int| 0 <= j < rows.len() && rows[j] == x;
    if j < init.len() {
        assert(init[j] == x);
        assert(init.contains(x));
        lemma_filter_loses(init, keep, x);
    }
}

/// Work that a claim hands out is awaited by the chunk that it was claimed for, so that its
/// result can be stored; it carries the chunk's text and the number of the attempt.
pub proof fn law_claimed_work_is_awaited(
    t: SemanticView,
    limit: int,
    updated_at: u64,
    i: int,
    work: SemanticChunkWork,
)
    requires
        0 <= i < t.chunks.len(),
        t.is_claimed(limit, i),
        is_work_of(t.chunks[i], work),
    ensures
        ({
            let after = t.claimed(limit, updated_at);
            &&& awaits(after.active, after.chunks[i], work)
            &&& work.input@ == t.chunks[i].input
            &&& work.attempt == after.chunks[i].attempts
        }),
{
}

/// Chunks under the active profile.
pub open spec fn is_current(active: Option<usize>) -> spec_fn(ChunkView) -> bool {
    |c: ChunkView| active == Some(c.profile)
}

proof fn lemma_states_sum(rows: Seq<ChunkView>, active: Option<usize>)
    ensures
        rows.filter(in_state(active, ChunkState::Pending)).len() + rows.filter(
            in_state(active, ChunkState::Processing),
        ).len() + rows.filter(in_state(active, ChunkState::Ready)).len() + rows.filter(
            in_state(active, ChunkState::Failed),
        ).len() == rows.filter(is_current(active)).len(),
    decreases rows.len(),
{
    reveal(Seq::filter);
    if rows.len() > 0 {
        lemma_states_sum(rows.drop_last(), active);
    }
}

/// The status of the index names the active profile and counts its chunks, in all and by state;
/// without an active profile it counts none.
pub proof fn law_the_status_counts_the_active_chunks(t: SemanticView, status: SemanticIndexStatus)
    requires
        t.wf(),
        is_status_of(t, status),
    ensures
        status.profile is Some <==> t.active is Some,
        status.profile matches Some(p) ==> p@ == t.profiles[t.active->0 as int],
        status.coverage.revision == t.revision,
        status.coverage.total == t.chunks.filter(is_current(t.active)).len(),
        status.coverage.ready == t.chunks.filter(in_state(t.active, ChunkState::Ready)).len(),
        status.coverage.failed == t.chunks.filter(in_state(t.active, ChunkState::Failed)).len(),
        status.coverage.pending == t.chunks.filter(in_state(t.active, ChunkState::Pending)).len(),
        status.coverage.processing == t.chunks.filter(
            in_state(t.active, ChunkState::Processing),
        ).len(),
{
    law_status_counts_chunks(t, ChunkState::Pending);
    law_status_counts_chunks(t, ChunkState::Processing);
    law_status_counts_chunks(t, ChunkState::Ready);
    law_status_counts_chunks(t, ChunkState::Failed);
    lemma_states_sum(t.chunks, t.active);
    if t.active is None {
        lemma_filter_none(t.chunks, is_current(t.active));
    }
}

/// A stored vector is read back: the chunk that awaited the work is ready afterwards, with a
/// vector of the profile's length whose components are those given. Vectors that are not finite
/// or of another length, and times that cannot be stored, are refused and change nothing.
pub proof fn law_stored_vectors_are_read_back(
    t: SemanticView,
    u: SemanticView,
    work: SemanticChunkWork,
    embedding: Seq<u32>,
    updated_at: u64,
    result: Result<SemanticWriteOutcome, StoreError>,
    i: int,
    j: int,
)
    requires
        t.wf(),
        4 * embedding.len() <= usize::MAX,
        stores_embedding(t, u, work, embedding, updated_at, result),
        0 <= i < t.chunks.len(),
        awaits(t.active, t.chunks[i], work),
        0 <= j < embedding.len(),
    ensures
        result is Err ==> u == t,
        result is Ok <==> (forall|k: int|
            0 <= k < embedding.len() ==> #[trigger] embedding[k] & 0x7f80_0000 != 0x7f80_0000)
            && updated_at <= 0x7fff_ffff_ffff_ffff
            && t.profiles[t.active->0 as int].dimensions == embedding.len(),
        result is Ok ==> {
            &&& u.chunks[i].state == ChunkState::Ready
            &&& u.chunks[i].embedding is Some
            &&& u.chunks[i].embedding->0.len() == 4 * embedding.len()
            &&& component(u.chunks[i].embedding->0, j) == embedding[j]
            &&& u.chunks[i].last_error is None
            &&& u.chunks[i].input == t.chunks[i].input
            &&& u.chunks[i].node_id == t.chunks[i].node_id
        },
{
    assert forall|k: int| 0 <= k < embedding.len() implies (is_finite(#[trigger] embedding[k])
        <==> embedding[k] & 0x7f80_0000 != 0x7f80_0000) by {
        crate::detail_laws::law_finite_components_have_room_in_the_exponent(embedding[k]);
    }
    if !all_finite(embedding) {
        let k = choose|k: int| 0 <= k < embedding.len() && !is_finite(#[trigger] embedding[k]);
        assert(!(embedding[k] & 0x7f80_0000 != 0x7f80_0000));
    }
    if result is Ok {
        assert(t.answers(i, work));
        law_embedding_round_trip(embedding);
    }
}

/// A failure is recorded with its text, which is not blank; the chunk that awaited the work has
/// failed afterwards, and has no vector.
pub proof fn law_failures_are_recorded(
    t: SemanticView,
    u: SemanticView,
    work: SemanticChunkWork,
    error: Seq<char>,
    updated_at: u64,
    result: Result<SemanticWriteOutcome, StoreError>,
    i: int,
)
    requires
        records_failure(t, u, work, error, updated_at, result),
        0 <= i < t.chunks.len(),
        awaits(t.active, t.chunks[i], work),
    ensures
        result is Err ==> u == t,
        result is Ok <==> updated_at <= 0x7fff_ffff_ffff_ffff && exists|k: int|
            0 <= k < error.len() && !crate::words::whitespace(#[trigger] error[k]),
        result is Ok ==> {
            &&& u.chunks[i].state == ChunkState::Failed
            &&& u.chunks[i].embedding is None
            &&& u.chunks[i].last_error == Some(error)
            &&& u.chunks[i].attempts == t.chunks[i].attempts
        },
{
    assert(t.answers(i, work));
}

} // verus!
