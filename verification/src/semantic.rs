//! Semantic chunks: profiles, the queue of pending work, and stored vectors.
//!
//! A vector is held as the bit patterns of its single-precision components.

use crate::integrity::{finding_views, FindingView, IntegrityFinding, IntegrityReport};
use crate::model::{
    invalid_data, not_found, Node, NodeHash, NodeId, Refusal, Section, StoreError,
};
use crate::reads::root_of;
use crate::tables::{storable, SqliteStore};
use crate::text::{chars_of, copy_text, decimal, joined, push_decimal, push_wide, share, text_of};
use crate::tree::{find, is_forest, present};
use crate::words::{is_whitespace, whitespace};
use std::sync::Arc;
use vstd::bytes::*;
use vstd::prelude::*;
use vstd::slice::*;

verus! {

/// How vectors are compared.
#[derive(Clone, Copy, Debug, PartialEq, Eq, Structural)]
pub enum EmbeddingMetric {
    Cosine,
}

/// What makes vectors comparable with each other.
#[derive(Debug)]
pub struct EmbeddingProfile {
    pub provider: String,
    pub model: String,
    pub dimensions: u32,
    pub metric: EmbeddingMetric,
    pub input_format_version: u32,
}

/// The contents of an [`EmbeddingProfile`].
pub struct ProfileView {
    pub provider: Seq<char>,
    pub model: Seq<char>,
    pub dimensions: u32,
    pub metric: EmbeddingMetric,
    pub input_format_version: u32,
}

impl View for EmbeddingProfile {
    type V = ProfileView;

    open spec fn view(&self) -> ProfileView {
        ProfileView {
            provider: self.provider@,
            model: self.model@,
            dimensions: self.dimensions,
            metric: self.metric,
            input_format_version: self.input_format_version,
        }
    }
}

impl EmbeddingProfile {
    pub fn copy(&self) -> (copy: EmbeddingProfile)
        ensures
            copy == *self,
    {
        EmbeddingProfile {
            provider: self.provider.clone(),
            model: self.model.clone(),
            dimensions: self.dimensions,
            metric: self.metric,
            input_format_version: self.input_format_version,
        }
    }

    fn same(&self, other: &EmbeddingProfile) -> (same: bool)
        ensures
            same == (self@ == other@),
    {
        self.provider == other.provider && self.model == other.model && self.dimensions
            == other.dimensions && self.metric == other.metric && self.input_format_version
            == other.input_format_version
    }
}

/// Where a chunk stands.
#[derive(Clone, Copy, Debug, PartialEq, Eq, Structural)]
pub enum ChunkState {
    Pending,
    Processing,
    Ready,
    Failed,
}

/// One piece of text to embed.
#[derive(Debug)]
pub struct SemanticChunk {
    pub node_id: NodeId,
    pub section_id: NodeId,
    pub position: u32,
    pub start_byte: u64,
    pub end_byte: u64,
    pub input: Arc<String>,
    pub input_hash: NodeHash,
}

/// One stored chunk.
#[derive(Debug)]
pub struct ChunkRow {
    /// Position of its profile.
    pub profile: usize,
    pub node_id: NodeId,
    pub section_id: NodeId,
    pub position: u32,
    pub start_byte: u64,
    pub end_byte: u64,
    pub input: Arc<String>,
    pub input_hash: NodeHash,
    pub state: ChunkState,
    pub embedding: Option<Arc<Vec<u8>>>,
    pub attempts: u32,
    pub last_error: Option<String>,
    pub updated_at: u64,
}

/// The contents of a [`ChunkRow`].
pub struct ChunkView {
    pub profile: usize,
    pub node_id: NodeId,
    pub section_id: NodeId,
    pub position: u32,
    pub start_byte: u64,
    pub end_byte: u64,
    pub input: Seq<char>,
    pub input_hash: NodeHash,
    pub state: ChunkState,
    pub embedding: Option<Seq<u8>>,
    pub attempts: u32,
    pub last_error: Option<Seq<char>>,
    pub updated_at: u64,
}

impl View for ChunkRow {
    type V = ChunkView;

    open spec fn view(&self) -> ChunkView {
        ChunkView {
            profile: self.profile,
            node_id: self.node_id,
            section_id: self.section_id,
            position: self.position,
            start_byte: self.start_byte,
            end_byte: self.end_byte,
            input: self.input@,
            input_hash: self.input_hash,
            state: self.state,
            embedding: bytes_of(self.embedding),
            attempts: self.attempts,
            last_error: text_of(self.last_error),
            updated_at: self.updated_at,
        }
    }
}

/// The bytes of an optional vector.
pub open spec fn bytes_of(bytes: Option<Arc<Vec<u8>>>) -> Option<Seq<u8>> {
    match bytes {
        Some(b) => Some(b@),
        None => None,
    }
}

fn share_bytes(bytes: &Option<Arc<Vec<u8>>>) -> (copy: Option<Arc<Vec<u8>>>)
    ensures
        copy == *bytes,
{
    match bytes {
        Some(b) => Some(share(b)),
        None => None,
    }
}

impl ChunkRow {
    pub fn copy(&self) -> (row: ChunkRow)
        ensures
            row@ == self@,
    {
        ChunkRow {
            profile: self.profile,
            node_id: self.node_id,
            section_id: self.section_id,
            position: self.position,
            start_byte: self.start_byte,
            end_byte: self.end_byte,
            input: share(&self.input),
            input_hash: self.input_hash,
            state: self.state,
            embedding: share_bytes(&self.embedding),
            attempts: self.attempts,
            last_error: copy_text(&self.last_error),
            updated_at: self.updated_at,
        }
    }
}

/// The semantic index of one workspace.
#[derive(Debug)]
pub struct SemanticIndex {
    pub profiles: Vec<EmbeddingProfile>,
    /// Position of the active profile.
    pub active: Option<usize>,
    pub revision: u64,
    pub chunks: Vec<ChunkRow>,
}

/// The contents of a [`SemanticIndex`].
pub struct SemanticView {
    pub profiles: Seq<ProfileView>,
    pub active: Option<usize>,
    pub revision: u64,
    pub chunks: Seq<ChunkView>,
}

pub open spec fn profile_views(profiles: Seq<EmbeddingProfile>) -> Seq<ProfileView> {
    Seq::new(profiles.len(), |i: int| profiles[i]@)
}

pub open spec fn chunk_views(chunks: Seq<ChunkRow>) -> Seq<ChunkView> {
    Seq::new(chunks.len(), |i: int| chunks[i]@)
}

impl View for SemanticIndex {
    type V = SemanticView;

    open spec fn view(&self) -> SemanticView {
        SemanticView {
            profiles: profile_views(self.profiles@),
            active: self.active,
            revision: self.revision,
            chunks: chunk_views(self.chunks@),
        }
    }
}

impl SemanticView {
    /// Whether the active profile exists.
    pub open spec fn wf(self) -> bool {
        self.active matches Some(p) ==> p < self.profiles.len()
    }

    /// Position of the first equal profile from `i` on.
    pub open spec fn position_of(self, profile: ProfileView, i: int) -> Option<int>
        decreases self.profiles.len() - i,
    {
        if i >= self.profiles.len() {
            None
        } else if self.profiles[i] == profile {
            Some(i)
        } else {
            self.position_of(profile, i + 1)
        }
    }

    /// The index with the profile known and active. The revision moves on when
    /// the active profile changes.
    pub open spec fn activated(self, profile: ProfileView) -> SemanticView {
        match self.position_of(profile, 0) {
            Some(p) => self.with_active(p as usize),
            None => SemanticView {
                profiles: self.profiles.push(profile),
                ..self.with_active(self.profiles.len() as usize)
            },
        }
    }

    pub open spec fn with_active(self, p: usize) -> SemanticView {
        if self.active == Some(p) {
            self
        } else {
            SemanticView { active: Some(p), revision: next_revision(self.revision), ..self }
        }
    }

    /// Whether chunk `i` belongs to the active profile and stands there.
    pub open spec fn stands(self, i: int, state: ChunkState) -> bool {
        self.active == Some(self.chunks[i].profile) && self.chunks[i].state == state
    }

    /// Number of the first `n` chunks of the active profile that stand there.
    pub open spec fn standing(self, state: ChunkState, n: int) -> nat
        decreases n,
    {
        if n <= 0 {
            0
        } else {
            self.standing(state, n - 1) + if self.stands(n - 1, state) {
                1nat
            } else {
                0nat
            }
        }
    }
}

/// The next revision, as far as it can be counted.
pub open spec fn next_revision(revision: u64) -> u64 {
    if revision == u64::MAX {
        revision
    } else {
        (revision + 1) as u64
    }
}

/// Whether the text holds nothing but white space.
pub open spec fn is_blank(text: Seq<char>) -> bool {
    forall|i: int| 0 <= i < text.len() ==> whitespace(#[trigger] text[i])
}

fn blank(text: &str) -> (yes: bool)
    ensures
        yes == is_blank(text@),
{
    let chars = chars_of(text);
    let mut i: usize = 0;
    while i < chars.len()
        invariant
            i <= chars.len(),
            chars@ == text@,
            forall|k: int| 0 <= k < i ==> whitespace(#[trigger] text@[k]),
        decreases chars.len() - i,
    {
        if !is_whitespace(chars[i]) {
            assert(!whitespace(text@[i as int]));
            return false;
        }
        i = i + 1;
    }
    true
}

/// Bytes of one stored vector.
pub open spec fn vector_bytes(dimensions: u32) -> int {
    dimensions * 4
}

/// Bytes of one stored vector.
pub fn embedding_bytes(dimensions: u32) -> (result: Result<usize, StoreError>)
    ensures
        vector_bytes(dimensions) <= usize::MAX ==> result is Ok && result->Ok_0 == vector_bytes(
            dimensions,
        ),
        vector_bytes(dimensions) > usize::MAX ==> result is Err && result->Err_0@
            == Refusal::InvalidData("semantic dimensions exceed platform range"@),
{
    match (dimensions as usize).checked_mul(4) {
        Some(bytes) => Ok(bytes),
        None => Err(invalid_data("semantic dimensions exceed platform range")),
    }
}

/// Why a profile cannot be used.
pub open spec fn profile_refusal(profile: ProfileView) -> Option<Refusal> {
    if is_blank(profile.provider) || is_blank(profile.model) || profile.dimensions == 0
        || profile.input_format_version == 0 {
        Some(Refusal::InvalidData("semantic profile fields must be non-empty and positive"@))
    } else if vector_bytes(profile.dimensions) > usize::MAX {
        Some(Refusal::InvalidData("semantic dimensions exceed platform range"@))
    } else {
        None
    }
}

/// Refuses a profile that cannot be used.
pub fn validate_profile(profile: &EmbeddingProfile) -> (result: Result<(), StoreError>)
    ensures
        match profile_refusal(profile@) {
            None => result is Ok,
            Some(e) => result is Err && result->Err_0@ == e,
        },
{
    if blank(profile.provider.as_str()) || blank(profile.model.as_str()) || profile.dimensions == 0
        || profile.input_format_version == 0 {
        return Err(invalid_data("semantic profile fields must be non-empty and positive"));
    }
    let _ = embedding_bytes(profile.dimensions)?;
    Ok(())
}

/// The refusal of a time that cannot be stored.
pub open spec fn time_refusal(updated_at: u64) -> Option<Refusal> {
    if storable(updated_at) {
        None
    } else {
        Some(Refusal::InvalidData("semantic updated_at exceeds SQLite"@))
    }
}

/// Refuses a value that a signed column cannot hold.
fn check_integer(value: u64, field: &str) -> (result: Result<(), StoreError>)
    ensures
        storable(value) ==> result is Ok,
        !storable(value) ==> result is Err && result->Err_0@ == Refusal::InvalidData(
            field@ + " exceeds SQLite"@,
        ),
{
    if value <= 0x7fff_ffff_ffff_ffff {
        Ok(())
    } else {
        Err(StoreError::InvalidData(joined(field, " exceeds SQLite")))
    }
}

fn check_time(updated_at: u64) -> (result: Result<(), StoreError>)
    ensures
        match time_refusal(updated_at) {
            None => result is Ok,
            Some(e) => result is Err && result->Err_0@ == e,
        },
{
    if updated_at <= 0x7fff_ffff_ffff_ffff {
        Ok(())
    } else {
        Err(invalid_data("semantic updated_at exceeds SQLite"))
    }
}

/// Whether a component's bit pattern is that of a finite number: its exponent is
/// not all ones.
pub open spec fn is_finite(bits: u32) -> bool {
    (bits >> 23) & 0xff != 0xff
}

pub open spec fn all_finite(bits: Seq<u32>) -> bool {
    forall|i: int| 0 <= i < bits.len() ==> is_finite(#[trigger] bits[i])
}

/// A vector's components as bytes, least significant first.
pub open spec fn encoded(bits: Seq<u32>, n: int) -> Seq<u8>
    decreases n,
{
    if n <= 0 {
        Seq::empty()
    } else {
        encoded(bits, n - 1) + spec_u32_to_le_bytes(bits[n - 1])
    }
}

/// Encodes a vector.
pub fn encode_embedding(bits: &Vec<u32>) -> (bytes: Vec<u8>)
    ensures
        bytes@ == encoded(bits@, bits@.len() as int),
{
    let mut bytes: Vec<u8> = Vec::new();
    let mut i: usize = 0;
    while i < bits.len()
        invariant
            i <= bits.len(),
            bytes@ == encoded(bits@, i as int),
        decreases bits.len() - i,
    {
        let mut part = u32_to_le_bytes(bits[i]);
        bytes.append(&mut part);
        i = i + 1;
    }
    bytes
}

pub proof fn lemma_encoded_len(bits: Seq<u32>, n: int)
    requires
        0 <= n <= bits.len(),
    ensures
        encoded(bits, n).len() == 4 * n,
    decreases n,
{
    lemma_auto_spec_u32_to_from_le_bytes();
    if n > 0 {
        lemma_encoded_len(bits, n - 1);
    }
}

/// A component read back from the bytes.
pub open spec fn component(bytes: Seq<u8>, i: int) -> u32 {
    spec_u32_from_le_bytes(bytes.subrange(4 * i, 4 * i + 4))
}

/// Whether the bytes are a stored vector of those dimensions, all finite.
pub open spec fn is_stored_vector(bytes: Seq<u8>, dimensions: u32) -> bool {
    &&& vector_bytes(dimensions) <= usize::MAX
    &&& bytes.len() == vector_bytes(dimensions)
    &&& forall|i: int| 0 <= i < dimensions ==> is_finite(#[trigger] component(bytes, i))
}

/// Decodes a stored vector of known dimensions.
pub fn decode_embedding(bytes: &Vec<u8>, dimensions: u32) -> (bits: Option<Vec<u32>>)
    ensures
        bits is Some <==> is_stored_vector(bytes@, dimensions),
        bits matches Some(b) ==> b@ == Seq::new(
            dimensions as nat,
            |i: int| component(bytes@, i),
        ),
{
    match embedding_bytes(dimensions) {
        Ok(expected) => {
            if bytes.len() != expected {
                return None;
            }
        },
        Err(_) => {
            return None;
        },
    }
    let mut bits: Vec<u32> = Vec::new();
    let mut i: u32 = 0;
    while i < dimensions
        invariant
            i <= dimensions,
            bytes.len() == vector_bytes(dimensions),
            vector_bytes(dimensions) <= usize::MAX,
            bits.len() == i,
            forall|k: int| 0 <= k < i ==> #[trigger] bits@[k] == component(bytes@, k),
            forall|k: int| 0 <= k < i ==> is_finite(#[trigger] component(bytes@, k)),
        decreases dimensions - i,
    {
        let at: usize = 4 * (i as usize);
        let part = slice_subrange(bytes.as_slice(), at, at + 4);
        let value: u32 = u32_from_le_bytes(part);
        assert(value == component(bytes@, i as int));
        if (value >> 23) & 0xff == 0xff {
            assert(!is_finite(component(bytes@, i as int)));
            return None;
        }
        bits.push(value);
        i = i + 1;
    }
    assert(bits@ =~= Seq::new(dimensions as nat, |i: int| component(bytes@, i)));
    Some(bits)
}

/// A finite vector that was encoded decodes to itself.
pub proof fn law_embedding_round_trip(bits: Seq<u32>)
    requires
        all_finite(bits),
        bits.len() <= u32::MAX,
        vector_bytes(bits.len() as u32) <= usize::MAX,
    ensures
        is_stored_vector(encoded(bits, bits.len() as int), bits.len() as u32),
        Seq::new(
            bits.len(),
            |i: int| component(encoded(bits, bits.len() as int), i),
        ) == bits,
{
    let bytes = encoded(bits, bits.len() as int);
    lemma_encoded_len(bits, bits.len() as int);
    assert forall|i: int| 0 <= i < bits.len() implies component(bytes, i) == bits[i] by {
        lemma_component(bits, bits.len() as int, i);
    }
    assert(Seq::new(bits.len(), |i: int| component(bytes, i)) =~= bits);
    assert forall|i: int| 0 <= i < bits.len() implies is_finite(
        #[trigger] component(bytes, i),
    ) by {
        assert(component(bytes, i) == bits[i]);
    }
}

proof fn lemma_component(bits: Seq<u32>, n: int, i: int)
    requires
        0 <= i < n <= bits.len(),
    ensures
        component(encoded(bits, n), i) == bits[i],
    decreases n,
{
    lemma_auto_spec_u32_to_from_le_bytes();
    lemma_encoded_len(bits, n);
    lemma_encoded_len(bits, n - 1);
    let whole = encoded(bits, n);
    let front = encoded(bits, n - 1);
    if i == n - 1 {
        assert(whole.subrange(4 * i, 4 * i + 4) =~= spec_u32_to_le_bytes(bits[i]));
    } else {
        lemma_component(bits, n - 1, i);
        assert(whole.subrange(4 * i, 4 * i + 4) =~= front.subrange(4 * i, 4 * i + 4));
    }
}

/// Exact lifecycle counts.
#[derive(Clone, Copy, Debug, PartialEq, Eq, Structural)]
pub struct SemanticIndexCoverage {
    pub total: u64,
    pub pending: u64,
    pub processing: u64,
    pub ready: u64,
    pub failed: u64,
    pub revision: u64,
}

/// Active profile with its lifecycle counts.
#[derive(Debug)]
pub struct SemanticIndexStatus {
    pub profile: Option<EmbeddingProfile>,
    pub coverage: SemanticIndexCoverage,
}

/// Claimed work.
#[derive(Debug)]
pub struct SemanticChunkWork {
    pub node_id: NodeId,
    pub section_id: NodeId,
    pub position: u32,
    pub input: Arc<String>,
    pub input_hash: NodeHash,
    pub attempt: u32,
}

/// Whether a result was still wanted.
#[derive(Clone, Copy, Debug, PartialEq, Eq, Structural)]
pub enum SemanticWriteOutcome {
    Stored,
    Stale,
}

/// Whether the work is that of the claimed chunk.
pub open spec fn is_work_of(chunk: ChunkView, work: SemanticChunkWork) -> bool {
    &&& work.node_id == chunk.node_id
    &&& work.section_id == chunk.section_id
    &&& work.position == chunk.position
    &&& work.input@ == chunk.input
    &&& work.input_hash == chunk.input_hash
    &&& work.attempt == next_attempt(chunk.attempts)
}

pub open spec fn next_attempt(attempts: u32) -> u32 {
    if attempts == u32::MAX {
        attempts
    } else {
        (attempts + 1) as u32
    }
}

impl SemanticView {
    /// Whether chunk `i` is among the first `limit` pending ones.
    pub open spec fn is_claimed(self, limit: int, i: int) -> bool {
        self.stands(i, ChunkState::Pending) && self.standing(ChunkState::Pending, i) < limit
    }

    /// The chunks after a claim.
    pub open spec fn claimed(self, limit: int, updated_at: u64) -> SemanticView {
        SemanticView {
            chunks: Seq::new(
                self.chunks.len(),
                |i: int|
                    if self.is_claimed(limit, i) {
                        ChunkView {
                            state: ChunkState::Processing,
                            attempts: next_attempt(self.chunks[i].attempts),
                            updated_at,
                            ..self.chunks[i]
                        }
                    } else {
                        self.chunks[i]
                    },
            ),
            ..self
        }
    }

    /// The chunks that a claim takes, among the first `n`.
    pub open spec fn claims(self, limit: int, n: int) -> Seq<ChunkView>
        decreases n,
    {
        if n <= 0 {
            Seq::empty()
        } else if self.is_claimed(limit, n - 1) {
            self.claims(limit, n - 1).push(self.chunks[n - 1])
        } else {
            self.claims(limit, n - 1)
        }
    }

    /// Whether chunk `i` is the one that the work was claimed for, unchanged.
    pub open spec fn answers(self, i: int, work: SemanticChunkWork) -> bool {
        let chunk = self.chunks[i];
        &&& self.stands(i, ChunkState::Processing)
        &&& chunk.section_id == work.section_id
        &&& chunk.position == work.position
        &&& chunk.input_hash == work.input_hash
        &&& chunk.node_id == work.node_id
    }

    /// Number of such chunks among the first `n`.
    pub open spec fn answering(self, work: SemanticChunkWork, n: int) -> nat
        decreases n,
    {
        if n <= 0 {
            0
        } else {
            self.answering(work, n - 1) + if self.answers(n - 1, work) {
                1nat
            } else {
                0nat
            }
        }
    }

    /// The chunks after a result of the work.
    pub open spec fn resolved(
        self,
        work: SemanticChunkWork,
        state: ChunkState,
        embedding: Option<Seq<u8>>,
        last_error: Option<Seq<char>>,
        updated_at: u64,
    ) -> SemanticView {
        SemanticView {
            chunks: Seq::new(
                self.chunks.len(),
                |i: int|
                    if self.answers(i, work) {
                        ChunkView { state, embedding, last_error, updated_at, ..self.chunks[i] }
                    } else {
                        self.chunks[i]
                    },
            ),
            ..self
        }
    }

    /// The chunks after requeueing those that stand in one state.
    pub open spec fn requeued(self, state: ChunkState, updated_at: u64) -> SemanticView {
        SemanticView {
            chunks: Seq::new(
                self.chunks.len(),
                |i: int|
                    if self.stands(i, state) {
                        ChunkView {
                            state: ChunkState::Pending,
                            embedding: None,
                            last_error: None,
                            updated_at,
                            ..self.chunks[i]
                        }
                    } else {
                        self.chunks[i]
                    },
            ),
            ..self
        }
    }

    /// The index without chunks and active profile.
    pub open spec fn cleared(self) -> SemanticView {
        SemanticView {
            chunks: Seq::empty(),
            active: None,
            revision: if self.active is Some {
                next_revision(self.revision)
            } else {
                self.revision
            },
            ..self
        }
    }
}

impl SemanticIndex {
    fn is_active(&self, profile: usize) -> (yes: bool)
        ensures
            yes == (self@.active == Some(profile)),
    {
        match self.active {
            Some(p) => p == profile,
            None => false,
        }
    }

    fn count(&self, state: ChunkState) -> (count: u64)
        ensures
            count == self@.standing(state, self@.chunks.len() as int),
            count <= self@.chunks.len(),
    {
        let mut count: u64 = 0;
        let mut i: usize = 0;
        while i < self.chunks.len()
            invariant
                i <= self.chunks.len(),
                count <= i,
                count == self@.standing(state, i as int),
            decreases self.chunks.len() - i,
        {
            assert(self@.chunks[i as int] == self.chunks@[i as int]@);
            if self.is_active(self.chunks[i].profile) && self.chunks[i].state == state {
                count = count + 1;
            }
            i = i + 1;
        }
        assert(self@.chunks.len() == self.chunks@.len());
        count
    }

    /// Returns the active profile, exact lifecycle counts, and semantic revision.
    pub fn semantic_index_status(&self) -> (status: SemanticIndexStatus)
        requires
            self@.wf(),
        ensures
            is_status_of(self@, status),
    {
        match self.active {
            None => SemanticIndexStatus {
                profile: None,
                coverage: SemanticIndexCoverage {
                    total: 0,
                    pending: 0,
                    processing: 0,
                    ready: 0,
                    failed: 0,
                    revision: self.revision,
                },
            },
            Some(p) => {
                let pending = self.count(ChunkState::Pending);
                let processing = self.count(ChunkState::Processing);
                let ready = self.count(ChunkState::Ready);
                let failed = self.count(ChunkState::Failed);
                let all: usize = self.chunks.len();
                proof {
                    assert(self@.chunks.len() == all);
                    lemma_states_partition(self@, self@.chunks.len() as int);
                    assert(self@.chunks.len() == self.chunks@.len());
                }
                assert(profile_views(self.profiles@).len() == self.profiles@.len());
                SemanticIndexStatus {
                    profile: Some(self.profiles[p].copy()),
                    coverage: SemanticIndexCoverage {
                        total: pending + processing + ready + failed,
                        pending,
                        processing,
                        ready,
                        failed,
                        revision: self.revision,
                    },
                }
            },
        }
    }

    /// Makes the profile known and active.
    fn activate(&mut self, profile: &EmbeddingProfile) -> (position: usize)
        requires
            old(self)@.wf(),
        ensures
            final(self)@ == old(self)@.activated(profile@),
            final(self)@.active == Some(position),
            final(self)@.wf(),
    {
        let ghost before = self@;
        let mut i: usize = 0;
        while i < self.profiles.len() && !self.profiles[i].same(profile)
            invariant
                i <= self.profiles.len(),
                before == self@,
                *self == *old(self),
                before.position_of(profile@, 0) == before.position_of(profile@, i as int),
            decreases self.profiles.len() - i,
        {
            assert(before.profiles[i as int] == self.profiles@[i as int]@);
            i = i + 1;
        }
        assert(before.profiles.len() == self.profiles@.len());
        if i == self.profiles.len() {
            self.profiles.push(profile.copy());
            assert(self@.profiles =~= before.profiles.push(profile@));
        } else {
            assert(before.profiles[i as int] == self.profiles@[i as int]@);
        }
        if !self.is_active(i) {
            self.active = Some(i);
            self.revision = self.revision.saturating_add(1);
        }
        i
    }

    /// Activates a compatible profile without generating or deleting chunks.
    pub fn activate_semantic_profile(&mut self, profile: &EmbeddingProfile) -> (result: Result<
        (),
        StoreError,
    >)
        requires
            old(self)@.wf(),
        ensures
            final(self)@.wf(),
            match profile_refusal(profile@) {
                Some(e) => result is Err && result->Err_0@ == e && final(self)@ == old(self)@,
                None => result is Ok && final(self)@ == old(self)@.activated(profile@),
            },
    {
        validate_profile(profile)?;
        let _ = self.activate(profile);
        Ok(())
    }

    /// Claims at most `limit` pending chunks in stable row order.
    pub fn claim_semantic_chunks(&mut self, limit: u32, updated_at: u64) -> (result: Result<
        Vec<SemanticChunkWork>,
        StoreError,
    >)
        ensures
            if limit == 0 {
                result is Err && result->Err_0@ == Refusal::InvalidData(
                    "semantic claim limit must be positive"@,
                ) && final(self)@ == old(self)@
            } else if !storable(updated_at) {
                result is Err && result->Err_0@ == time_refusal(updated_at)->0 && final(self)@
                    == old(self)@
            } else if old(self)@.active is None {
                result is Err && result->Err_0@ == Refusal::InvalidData(
                    "semantic profile is not configured"@,
                ) && final(self)@ == old(self)@
            } else {
                let claims = old(self)@.claims(
                    limit as int,
                    old(self)@.chunks.len() as int,
                );
                &&& result is Ok
                &&& result->Ok_0@.len() == claims.len()
                &&& forall|i: int|
                    0 <= i < claims.len() ==> is_work_of(claims[i], #[trigger] result->Ok_0@[i])
                &&& final(self)@ == old(self)@.claimed(limit as int, updated_at)
            },
    {
        if limit == 0 {
            return Err(invalid_data("semantic claim limit must be positive"));
        }
        check_time(updated_at)?;
        if self.active.is_none() {
            return Err(invalid_data("semantic profile is not configured"));
        }
        let ghost t = self@;
        let mut work: Vec<SemanticChunkWork> = Vec::new();
        let mut chunks: Vec<ChunkRow> = Vec::new();
        let mut seen: usize = 0;
        let mut i: usize = 0;
        while i < self.chunks.len()
            invariant
                i <= self.chunks.len(),
                t == self@,
                *self == *old(self),
                seen <= i,
                seen == t.standing(ChunkState::Pending, i as int),
                chunk_views(chunks@) =~= t.claimed(limit as int, updated_at).chunks.take(i as int),
                work.len() == t.claims(limit as int, i as int).len(),
                forall|k: int|
                    0 <= k < work.len() ==> is_work_of(
                        t.claims(limit as int, i as int)[k],
                        #[trigger] work@[k],
                    ),
            decreases self.chunks.len() - i,
        {
            let row = &self.chunks[i];
            assert(t.chunks[i as int] == row@);
            let mut copy = row.copy();
            let ghost before = chunk_views(chunks@);
            if self.is_active(row.profile) && row.state == ChunkState::Pending {
                if (seen as u64) < limit as u64 {
                    assert(t.is_claimed(limit as int, i as int));
                    copy.state = ChunkState::Processing;
                    copy.attempts = row.attempts.saturating_add(1);
                    copy.updated_at = updated_at;
                    work.push(
                        SemanticChunkWork {
                            node_id: row.node_id,
                            section_id: row.section_id,
                            position: row.position,
                            input: share(&row.input),
                            input_hash: row.input_hash,
                            attempt: row.attempts.saturating_add(1),
                        },
                    );
                }
                seen = seen + 1;
            }
            let ghost view = copy@;
            chunks.push(copy);
            assert(chunk_views(chunks@) =~= before.push(view));
            i = i + 1;
        }
        assert(t.chunks.len() == self.chunks@.len());
        assert(chunk_views(chunks@) =~= t.claimed(limit as int, updated_at).chunks);
        self.chunks = chunks;
        Ok(work)
    }

    fn answers(&self, i: usize, work: &SemanticChunkWork) -> (yes: bool)
        requires
            i < self@.chunks.len(),
        ensures
            yes == self@.answers(i as int, *work),
    {
        assert(self@.chunks[i as int] == self.chunks@[i as int]@);
        let row = &self.chunks[i];
        self.is_active(row.profile) && row.state == ChunkState::Processing && row.section_id
            == work.section_id && row.position == work.position && row.input_hash
            == work.input_hash && row.node_id == work.node_id
    }

    /// Writes the result of the work where it is still wanted; tells how many
    /// chunks took it.
    fn resolve(
        &mut self,
        work: &SemanticChunkWork,
        state: ChunkState,
        embedding: Option<Arc<Vec<u8>>>,
        last_error: Option<String>,
        updated_at: u64,
    ) -> (changed: usize)
        ensures
            changed == old(self)@.answering(*work, old(self)@.chunks.len() as int),
            final(self)@ == old(self)@.resolved(
                *work,
                state,
                bytes_of(embedding),
                text_of(last_error),
                updated_at,
            ),
    {
        let ghost t = self@;
        let ghost goal = t.resolved(
            *work,
            state,
            bytes_of(embedding),
            text_of(last_error),
            updated_at,
        );
        let mut changed: usize = 0;
        let mut chunks: Vec<ChunkRow> = Vec::new();
        let mut i: usize = 0;
        while i < self.chunks.len()
            invariant
                i <= self.chunks.len(),
                t == self@,
                *self == *old(self),
                goal == t.resolved(
                    *work,
                    state,
                    bytes_of(embedding),
                    text_of(last_error),
                    updated_at,
                ),
                changed <= i,
                changed == t.answering(*work, i as int),
                chunk_views(chunks@) =~= goal.chunks.take(i as int),
            decreases self.chunks.len() - i,
        {
            assert(t.chunks[i as int] == self.chunks@[i as int]@);
            let mut copy = self.chunks[i].copy();
            let ghost before = chunk_views(chunks@);
            if self.answers(i, work) {
                copy.state = state;
                copy.embedding = share_bytes(&embedding);
                copy.last_error = copy_text(&last_error);
                copy.updated_at = updated_at;
                changed = changed + 1;
            }
            let ghost view = copy@;
            chunks.push(copy);
            assert(chunk_views(chunks@) =~= before.push(view));
            i = i + 1;
        }
        assert(t.chunks.len() == self.chunks@.len());
        assert(chunk_views(chunks@) =~= goal.chunks);
        self.chunks = chunks;
        changed
    }

    /// Stores a finite vector only when the claimed input is still current.
    pub fn store_semantic_embedding(
        &mut self,
        work: &SemanticChunkWork,
        embedding: &Vec<u32>,
        updated_at: u64,
    ) -> (result: Result<SemanticWriteOutcome, StoreError>)
        requires
            old(self)@.wf(),
        ensures
            stores_embedding(old(self)@, final(self)@, *work, embedding@, updated_at, result),
    {
        let mut i: usize = 0;
        while i < embedding.len()
            invariant
                i <= embedding.len(),
                *self == *old(self),
                forall|k: int| 0 <= k < i ==> is_finite(#[trigger] embedding@[k]),
            decreases embedding.len() - i,
        {
            if (embedding[i] >> 23) & 0xff == 0xff {
                assert(!is_finite(embedding@[i as int]));
                return Err(invalid_data("semantic embedding contains a non-finite value"));
            }
            i = i + 1;
        }
        check_time(updated_at)?;
        let p: usize = match self.active {
            None => {
                return Ok(SemanticWriteOutcome::Stale);
            },
            Some(p) => p,
        };
        assert(self@.profiles[p as int] == self.profiles@[p as int]@);
        let dimensions: u32 = self.profiles[p].dimensions;
        if embedding.len() as u64 != dimensions as u64 {
            let mut text = "semantic embedding has ".to_owned();
            push_wide(&mut text, embedding.len() as u128);
            text.push_str(" dimensions, expected ");
            push_decimal(&mut text, dimensions as u64);
            return Err(StoreError::InvalidData(text));
        }
        let bytes = encode_embedding(embedding);
        let changed = self.resolve(
            work,
            ChunkState::Ready,
            Some(Arc::new(bytes)),
            None,
            updated_at,
        );
        Ok(
            if changed == 1 {
                SemanticWriteOutcome::Stored
            } else {
                SemanticWriteOutcome::Stale
            },
        )
    }

    /// Records a non-blank failure only when claimed work is current.
    pub fn fail_semantic_chunk(
        &mut self,
        work: &SemanticChunkWork,
        error: &str,
        updated_at: u64,
    ) -> (result: Result<SemanticWriteOutcome, StoreError>)
        ensures
            records_failure(old(self)@, final(self)@, *work, error@, updated_at, result),
    {
        if blank(error) {
            return Err(invalid_data("semantic failure detail must not be blank"));
        }
        check_time(updated_at)?;
        if self.active.is_none() {
            return Ok(SemanticWriteOutcome::Stale);
        }
        let changed = self.resolve(
            work,
            ChunkState::Failed,
            None,
            Some(error.to_owned()),
            updated_at,
        );
        Ok(
            if changed == 1 {
                SemanticWriteOutcome::Stored
            } else {
                SemanticWriteOutcome::Stale
            },
        )
    }

    fn requeue(&mut self, state: ChunkState, updated_at: u64) -> (result: Result<u64, StoreError>)
        ensures
            if !storable(updated_at) {
                result is Err && result->Err_0@ == time_refusal(updated_at)->0 && final(self)@
                    == old(self)@
            } else {
                &&& result is Ok
                &&& result->Ok_0 == old(self)@.standing(state, old(self)@.chunks.len() as int)
                &&& final(self)@ == old(self)@.requeued(state, updated_at)
            },
    {
        check_time(updated_at)?;
        let ghost t = self@;
        let changed: u64 = self.count(state);
        let mut chunks: Vec<ChunkRow> = Vec::new();
        let mut i: usize = 0;
        while i < self.chunks.len()
            invariant
                i <= self.chunks.len(),
                t == self@,
                *self == *old(self),
                chunk_views(chunks@) =~= t.requeued(state, updated_at).chunks.take(i as int),
            decreases self.chunks.len() - i,
        {
            assert(t.chunks[i as int] == self.chunks@[i as int]@);
            let mut copy = self.chunks[i].copy();
            let ghost before = chunk_views(chunks@);
            if self.is_active(self.chunks[i].profile) && self.chunks[i].state == state {
                copy.state = ChunkState::Pending;
                copy.embedding = None;
                copy.last_error = None;
                copy.updated_at = updated_at;
            }
            let ghost view = copy@;
            chunks.push(copy);
            assert(chunk_views(chunks@) =~= before.push(view));
            i = i + 1;
        }
        assert(t.chunks.len() == self.chunks@.len());
        assert(chunk_views(chunks@) =~= t.requeued(state, updated_at).chunks);
        self.chunks = chunks;
        Ok(changed)
    }

    /// Requeues every failed chunk in the active profile.
    pub fn retry_failed_semantic_chunks(&mut self, updated_at: u64) -> (result: Result<
        u64,
        StoreError,
    >)
        ensures
            if !storable(updated_at) {
                result is Err && result->Err_0@ == time_refusal(updated_at)->0 && final(self)@
                    == old(self)@
            } else {
                &&& result is Ok
                &&& result->Ok_0 == old(self)@.standing(
                    ChunkState::Failed,
                    old(self)@.chunks.len() as int,
                )
                &&& final(self)@ == old(self)@.requeued(ChunkState::Failed, updated_at)
            },
    {
        self.requeue(ChunkState::Failed, updated_at)
    }

    /// Requeues work left in processing state by an interrupted indexer.
    pub fn recover_processing_semantic_chunks(&mut self, updated_at: u64) -> (result: Result<
        u64,
        StoreError,
    >)
        ensures
            if !storable(updated_at) {
                result is Err && result->Err_0@ == time_refusal(updated_at)->0 && final(self)@
                    == old(self)@
            } else {
                &&& result is Ok
                &&& result->Ok_0 == old(self)@.standing(
                    ChunkState::Processing,
                    old(self)@.chunks.len() as int,
                )
                &&& final(self)@ == old(self)@.requeued(ChunkState::Processing, updated_at)
            },
    {
        self.requeue(ChunkState::Processing, updated_at)
    }

    /// Deletes all derived semantic chunks and deactivates the profile.
    pub fn clear_semantic_index(&mut self)
        ensures
            final(self)@ == old(self)@.cleared(),
    {
        self.chunks = Vec::new();
        if self.active.is_some() {
            self.active = None;
            self.revision = self.revision.saturating_add(1);
        }
        assert(self@.chunks =~= Seq::empty());
    }
}

/// Whether the result of the work is taken: exactly one chunk wants it.
pub open spec fn outcome_of(t: SemanticView, work: SemanticChunkWork) -> SemanticWriteOutcome {
    if t.answering(work, t.chunks.len() as int) == 1 {
        SemanticWriteOutcome::Stored
    } else {
        SemanticWriteOutcome::Stale
    }
}

proof fn lemma_states_partition(t: SemanticView, n: int)
    requires
        0 <= n <= t.chunks.len(),
    ensures
        t.standing(ChunkState::Pending, n) + t.standing(ChunkState::Processing, n) + t.standing(
            ChunkState::Ready,
            n,
        ) + t.standing(ChunkState::Failed, n) <= n,
    decreases n,
{
    if n > 0 {
        lemma_states_partition(t, n - 1);
    }
}

/// Work whose chunk changed, moved on or went away is stale, and leaves the
/// index as it is.
pub proof fn law_stale_work_changes_nothing(
    t: SemanticView,
    work: SemanticChunkWork,
    state: ChunkState,
    embedding: Option<Seq<u8>>,
    last_error: Option<Seq<char>>,
    updated_at: u64,
)
    requires
        forall|i: int| 0 <= i < t.chunks.len() ==> !#[trigger] t.answers(i, work),
    ensures
        outcome_of(t, work) == SemanticWriteOutcome::Stale,
        t.resolved(work, state, embedding, last_error, updated_at) == t,
{
    lemma_none_answer(t, work, t.chunks.len() as int);
    assert forall|i: int| 0 <= i < t.chunks.len() implies !#[trigger] t.answers(i, work) by {}
    assert(t.resolved(work, state, embedding, last_error, updated_at).chunks =~= t.chunks);
}

proof fn lemma_none_answer(t: SemanticView, work: SemanticChunkWork, n: int)
    requires
        0 <= n <= t.chunks.len(),
        forall|i: int| 0 <= i < t.chunks.len() ==> !#[trigger] t.answers(i, work),
    ensures
        t.answering(work, n) == 0,
    decreases n,
{
    if n > 0 {
        lemma_none_answer(t, work, n - 1);
        assert(!t.answers(n - 1, work));
    }
}

/// After recovery no chunk of the active profile is left in processing.
pub proof fn law_recovery_leaves_none_processing(t: SemanticView, updated_at: u64, i: int)
    requires
        0 <= i < t.chunks.len(),
    ensures
        !t.requeued(ChunkState::Processing, updated_at).stands(i, ChunkState::Processing),
{
}

impl SemanticView {
    /// The vector that a new chunk takes over: the first one from `i` on that belongs to
    /// a ready chunk with the same input in the profile and fits its dimensions.
    pub open spec fn ready_vector(
        self,
        profile: usize,
        input_hash: NodeHash,
        dimensions: u32,
        i: int,
    ) -> Option<Seq<u8>>
        decreases self.chunks.len() - i,
    {
        if i >= self.chunks.len() {
            None
        } else if self.chunks[i].profile == profile && self.chunks[i].input_hash == input_hash
            && self.chunks[i].state == ChunkState::Ready && self.chunks[i].embedding is Some
            && self.chunks[i].embedding->0.len() == vector_bytes(dimensions) {
            self.chunks[i].embedding
        } else {
            self.ready_vector(profile, input_hash, dimensions, i + 1)
        }
    }

    /// The stored form of a new chunk: ready where a vector is at hand, else
    /// pending.
    pub open spec fn fresh(
        self,
        profile: usize,
        chunk: SemanticChunk,
        dimensions: u32,
        updated_at: u64,
    ) -> ChunkView {
        let vector = self.ready_vector(profile, chunk.input_hash, dimensions, 0);
        ChunkView {
            profile,
            node_id: chunk.node_id,
            section_id: chunk.section_id,
            position: chunk.position,
            start_byte: chunk.start_byte,
            end_byte: chunk.end_byte,
            input: chunk.input@,
            input_hash: chunk.input_hash,
            state: if vector is Some {
                ChunkState::Ready
            } else {
                ChunkState::Pending
            },
            embedding: vector,
            attempts: 0,
            last_error: None,
            updated_at,
        }
    }
}

/// Whether the section exists and belongs to the node.
pub open spec fn owns_section(sections: Seq<Arc<Section>>, section: NodeId, node: NodeId) -> bool {
    match first_section(sections, section, 0) {
        Some(i) => sections[i].node_id == node,
        None => false,
    }
}

/// Position of the first section with the identity from `i` on.
pub open spec fn first_section(sections: Seq<Arc<Section>>, id: NodeId, i: int) -> Option<int>
    decreases sections.len() - i,
{
    if i >= sections.len() {
        None
    } else if sections[i].id == id {
        Some(i)
    } else {
        first_section(sections, id, i + 1)
    }
}

/// Why one of the first `n` chunks cannot be stored.
pub open spec fn chunk_refusal(
    sections: Seq<Arc<Section>>,
    node_id: NodeId,
    chunks: Seq<SemanticChunk>,
    n: int,
) -> Option<Refusal>
    decreases n,
{
    if n <= 0 {
        None
    } else {
        match chunk_refusal(sections, node_id, chunks, n - 1) {
            Some(e) => Some(e),
            None => if owns_section(sections, chunks[n - 1].section_id, node_id) {
                None
            } else {
                Some(
                    Refusal::InvalidData(
                        "semantic section "@ + chunks[n - 1].section_id.text()
                            + " does not belong to node "@ + node_id.text(),
                    ),
                )
            },
        }
    }
}

/// Why the byte range of one of the first `n` chunks cannot be stored.
pub open spec fn range_refusal(chunks: Seq<SemanticChunk>, n: int) -> Option<Refusal>
    decreases n,
{
    if n <= 0 {
        None
    } else {
        match range_refusal(chunks, n - 1) {
            Some(e) => Some(e),
            None => if !storable(chunks[n - 1].start_byte) {
                Some(Refusal::InvalidData("semantic start_byte"@ + " exceeds SQLite"@))
            } else if !storable(chunks[n - 1].end_byte) {
                Some(Refusal::InvalidData("semantic end_byte"@ + " exceeds SQLite"@))
            } else {
                None
            },
        }
    }
}

/// Why one node's chunks cannot be replaced.
pub open spec fn replacement_refusal(
    nodes: Seq<Node>,
    sections: Seq<Arc<Section>>,
    node_id: NodeId,
    profile: ProfileView,
    chunks: Seq<SemanticChunk>,
    updated_at: u64,
) -> Option<Refusal> {
    let n = chunks.len() as int;
    if let Some(e) = profile_refusal(profile) {
        Some(e)
    } else if exists|i: int| 0 <= i < chunks.len() && (#[trigger] chunks[i]).node_id != node_id {
        Some(Refusal::InvalidData("semantic chunk belongs to another node"@))
    } else if let Some(e) = time_refusal(updated_at) {
        Some(e)
    } else if !present(nodes, node_id) {
        Some(Refusal::NotFound(node_id.text()))
    } else if let Some(e) = chunk_refusal(sections, node_id, chunks, n) {
        Some(e)
    } else {
        range_refusal(chunks, n)
    }
}

impl SemanticView {
    /// The index after replacing one node's chunks under a profile.
    pub open spec fn replaced(
        self,
        node_id: NodeId,
        profile: ProfileView,
        chunks: Seq<SemanticChunk>,
        updated_at: u64,
    ) -> SemanticView {
        let u = self.activated(profile);
        let p = u.active->0;
        SemanticView {
            chunks: u.chunks.filter(
                |c: ChunkView| !(c.node_id == node_id && c.profile == p),
            ) + Seq::new(
                chunks.len(),
                |i: int| u.fresh(p, chunks[i], profile.dimensions, updated_at),
            ),
            ..u
        }
    }
}

fn find_section(sections: &Vec<Arc<Section>>, id: NodeId) -> (found: Option<usize>)
    ensures
        first_section(sections@, id, 0) == match found {
            Some(i) => Some(i as int),
            None => None,
        },
        found matches Some(i) ==> i < sections.len(),
{
    let mut i: usize = 0;
    while i < sections.len()
        invariant
            i <= sections.len(),
            first_section(sections@, id, 0) == first_section(sections@, id, i as int),
        decreases sections.len() - i,
    {
        if sections[i].id == id {
            return Some(i);
        }
        i = i + 1;
    }
    None
}

fn check_chunk_sections(
    sections: &Vec<Arc<Section>>,
    node_id: NodeId,
    chunks: &Vec<SemanticChunk>,
) -> (result: Result<(), StoreError>)
    ensures
        match chunk_refusal(sections@, node_id, chunks@, chunks@.len() as int) {
            None => result is Ok,
            Some(e) => result is Err && result->Err_0@ == e,
        },
{
    let mut i: usize = 0;
    while i < chunks.len()
        invariant
            i <= chunks.len(),
            chunk_refusal(sections@, node_id, chunks@, i as int) is None,
        decreases chunks.len() - i,
    {
        let owned: bool = match find_section(sections, chunks[i].section_id) {
            Some(at) => sections[at].node_id == node_id,
            None => false,
        };
        if !owned {
            let mut text = "semantic section ".to_owned();
            let section = chunks[i].section_id.to_text();
            text.push_str(section.as_str());
            text.push_str(" does not belong to node ");
            let node = node_id.to_text();
            text.push_str(node.as_str());
            proof {
                lemma_chunk_refused(sections@, node_id, chunks@, i + 1, chunks@.len() as int);
            }
            return Err(StoreError::InvalidData(text));
        }
        i = i + 1;
    }
    Ok(())
}

proof fn lemma_chunk_refused(
    sections: Seq<Arc<Section>>,
    node_id: NodeId,
    chunks: Seq<SemanticChunk>,
    n: int,
    m: int,
)
    requires
        0 <= n <= m,
        chunk_refusal(sections, node_id, chunks, n) is Some,
    ensures
        chunk_refusal(sections, node_id, chunks, m) == chunk_refusal(sections, node_id, chunks, n),
    decreases m,
{
    if m > n {
        lemma_chunk_refused(sections, node_id, chunks, n, m - 1);
    }
}

fn check_ranges(chunks: &Vec<SemanticChunk>) -> (result: Result<(), StoreError>)
    ensures
        match range_refusal(chunks@, chunks@.len() as int) {
            None => result is Ok,
            Some(e) => result is Err && result->Err_0@ == e,
        },
{
    let mut i: usize = 0;
    while i < chunks.len()
        invariant
            i <= chunks.len(),
            range_refusal(chunks@, i as int) is None,
        decreases chunks.len() - i,
    {
        match check_integer(chunks[i].start_byte, "semantic start_byte") {
            Ok(_) => {},
            Err(e) => {
                proof {
                    lemma_range_refused(chunks@, i + 1, chunks@.len() as int);
                }
                return Err(e);
            },
        }
        match check_integer(chunks[i].end_byte, "semantic end_byte") {
            Ok(_) => {},
            Err(e) => {
                proof {
                    lemma_range_refused(chunks@, i + 1, chunks@.len() as int);
                }
                return Err(e);
            },
        }
        i = i + 1;
    }
    Ok(())
}

proof fn lemma_range_refused(chunks: Seq<SemanticChunk>, n: int, m: int)
    requires
        0 <= n <= m,
        range_refusal(chunks, n) is Some,
    ensures
        range_refusal(chunks, m) == range_refusal(chunks, n),
    decreases m,
{
    if m > n {
        lemma_range_refused(chunks, n, m - 1);
    }
}

impl SemanticIndex {
    /// The fitting vector of a ready chunk with the same input.
    fn find_vector(&self, profile: usize, input_hash: NodeHash, dimensions: u32) -> (vector: Option<
        Arc<Vec<u8>>,
    >)
        ensures
            bytes_of(vector) == self@.ready_vector(profile, input_hash, dimensions, 0),
    {
        let mut i: usize = 0;
        while i < self.chunks.len()
            invariant
                i <= self.chunks.len(),
                self@.ready_vector(profile, input_hash, dimensions, 0) == self@.ready_vector(
                    profile,
                    input_hash,
                    dimensions,
                    i as int,
                ),
            decreases self.chunks.len() - i,
        {
            let row = &self.chunks[i];
            assert(self@.chunks[i as int] == row@);
            if row.profile == profile && row.input_hash == input_hash && row.state
                == ChunkState::Ready {
                match &row.embedding {
                    Some(bytes) => {
                        if bytes.len() as u128 == dimensions as u128 * 4 {
                            return share_bytes(&row.embedding);
                        }
                    },
                    None => {},
                }
            }
            i = i + 1;
        }
        None
    }

    /// The stored form of a new chunk.
    fn fresh_row(
        &self,
        profile: usize,
        chunk: &SemanticChunk,
        dimensions: u32,
        updated_at: u64,
    ) -> (row: ChunkRow)
        ensures
            row@ == self@.fresh(profile, *chunk, dimensions, updated_at),
    {
        let embedding: Option<Arc<Vec<u8>>> = self.find_vector(
            profile,
            chunk.input_hash,
            dimensions,
        );
        let state: ChunkState = if embedding.is_some() {
            ChunkState::Ready
        } else {
            ChunkState::Pending
        };
        ChunkRow {
            profile,
            node_id: chunk.node_id,
            section_id: chunk.section_id,
            position: chunk.position,
            start_byte: chunk.start_byte,
            end_byte: chunk.end_byte,
            input: share(&chunk.input),
            input_hash: chunk.input_hash,
            state,
            embedding,
            attempts: 0,
            last_error: None,
            updated_at,
        }
    }

    /// Atomically replaces one node's chunks for a profile.
    ///
    /// A ready vector with an identical complete input hash and compatible
    /// profile is reused; every other chunk becomes pending.
    pub fn replace_node_semantic_chunks(
        &mut self,
        store: &SqliteStore,
        node_id: NodeId,
        profile: &EmbeddingProfile,
        chunks: &Vec<SemanticChunk>,
        updated_at: u64,
    ) -> (result: Result<(), StoreError>)
        requires
            old(self)@.wf(),
        ensures
            final(self)@.wf(),
            match replacement_refusal(
                store@.nodes,
                store@.sections,
                node_id,
                profile@,
                chunks@,
                updated_at,
            ) {
                Some(e) => result is Err && result->Err_0@ == e && final(self)@ == old(self)@,
                None => result is Ok && final(self)@ == old(self)@.replaced(
                    node_id,
                    profile@,
                    chunks@,
                    updated_at,
                ),
            },
    {
        validate_profile(profile)?;
        let mut c: usize = 0;
        while c < chunks.len()
            invariant
                c <= chunks.len(),
                *self == *old(self),
                self@.wf(),
                profile_refusal(profile@) is None,
                forall|k: int| 0 <= k < c ==> (#[trigger] chunks@[k]).node_id == node_id,
            decreases chunks.len() - c,
        {
            if chunks[c].node_id != node_id {
                assert(chunks@[c as int].node_id != node_id);
                return Err(invalid_data("semantic chunk belongs to another node"));
            }
            c = c + 1;
        }
        check_time(updated_at)?;
        if find(&store.nodes, node_id).is_none() {
            return Err(not_found(node_id));
        }
        check_chunk_sections(&store.sections, node_id, chunks)?;
        check_ranges(chunks)?;
        let p: usize = self.activate(profile);
        let ghost u = self@;
        let ghost keep = |c: ChunkView| !(c.node_id == node_id && c.profile == p);
        let mut rows: Vec<ChunkRow> = Vec::new();
        let mut i: usize = 0;
        assert(chunk_views(rows@) =~= u.chunks.take(0).filter(keep)) by {
            reveal(Seq::filter);
        }
        while i < self.chunks.len()
            invariant
                i <= self.chunks.len(),
                u == self@,
                u == old(self)@.activated(profile@),
                keep == (|c: ChunkView| !(c.node_id == node_id && c.profile == p)),
                chunk_views(rows@) == u.chunks.take(i as int).filter(keep),
            decreases self.chunks.len() - i,
        {
            proof {
                crate::edits::lemma_filter_step(u.chunks, keep, i as int);
            }
            assert(u.chunks[i as int] == self.chunks@[i as int]@);
            let ghost before = chunk_views(rows@);
            if !(self.chunks[i].node_id == node_id && self.chunks[i].profile == p) {
                rows.push(self.chunks[i].copy());
                assert(chunk_views(rows@) =~= before.push(u.chunks[i as int]));
            }
            i = i + 1;
        }
        assert(u.chunks.len() == self.chunks@.len());
        assert(u.chunks.take(u.chunks.len() as int) =~= u.chunks);
        let ghost kept = u.chunks.filter(keep);
        let ghost added = Seq::new(
            chunks@.len(),
            |i: int| u.fresh(p, chunks@[i], profile.dimensions, updated_at),
        );
        assert(chunk_views(rows@) =~= kept + added.take(0));
        let mut j: usize = 0;
        while j < chunks.len()
            invariant
                j <= chunks.len(),
                u == self@,
                u == old(self)@.activated(profile@),
                added == Seq::new(
                    chunks@.len(),
                    |i: int| u.fresh(p, chunks@[i], profile.dimensions, updated_at),
                ),
                chunk_views(rows@) == kept + added.take(j as int),
            decreases chunks.len() - j,
        {
            let ghost before = chunk_views(rows@);
            let row = self.fresh_row(p, &chunks[j], profile.dimensions, updated_at);
            let ghost view = row@;
            rows.push(row);
            assert(chunk_views(rows@) =~= before.push(view));
            assert(chunk_views(rows@) =~= kept + added.take(j + 1));
            j = j + 1;
        }
        assert(added.take(chunks@.len() as int) =~= added);
        self.chunks = rows;
        Ok(())
    }
}

/// Whether the section of a chunk still exists.
pub open spec fn is_anchored(sections: Seq<Arc<Section>>, chunk: ChunkView) -> bool {
    first_section(sections, chunk.section_id, 0) is Some
}

impl SemanticView {
    /// The index without the chunks of sections that are gone. Losing a chunk
    /// advances the revision.
    pub open spec fn anchored(self, sections: Seq<Arc<Section>>) -> SemanticView {
        let kept = self.chunks.filter(|c: ChunkView| is_anchored(sections, c));
        SemanticView {
            chunks: kept,
            revision: if kept.len() < self.chunks.len() {
                next_revision(self.revision)
            } else {
                self.revision
            },
            ..self
        }
    }
}

impl SemanticIndex {
    /// Drops the chunks of sections that are gone.
    pub fn drop_orphans(&mut self, store: &SqliteStore)
        requires
            old(self)@.wf(),
        ensures
            final(self)@.wf(),
            final(self)@ == old(self)@.anchored(store@.sections),
    {
        let ghost u = self@;
        let ghost sections = store@.sections;
        let ghost keep = |c: ChunkView| is_anchored(sections, c);
        let mut rows: Vec<ChunkRow> = Vec::new();
        let mut i: usize = 0;
        assert(chunk_views(rows@) =~= u.chunks.take(0).filter(keep)) by {
            reveal(Seq::filter);
        }
        while i < self.chunks.len()
            invariant
                i <= self.chunks.len(),
                u == self@,
                u == old(self)@,
                sections == store@.sections,
                keep == (|c: ChunkView| is_anchored(sections, c)),
                chunk_views(rows@) == u.chunks.take(i as int).filter(keep),
            decreases self.chunks.len() - i,
        {
            proof {
                crate::edits::lemma_filter_step(u.chunks, keep, i as int);
            }
            assert(u.chunks[i as int] == self.chunks@[i as int]@);
            let ghost before = chunk_views(rows@);
            if find_section(&store.sections, self.chunks[i].section_id).is_some() {
                rows.push(self.chunks[i].copy());
                assert(chunk_views(rows@) =~= before.push(u.chunks[i as int]));
            }
            i = i + 1;
        }
        assert(u.chunks.len() == self.chunks@.len());
        assert(u.chunks.take(u.chunks.len() as int) =~= u.chunks);
        assert(chunk_views(rows@).len() == rows@.len());
        if rows.len() < self.chunks.len() {
            self.revision = self.revision.saturating_add(1);
        }
        self.chunks = rows;
    }
}

/// Tells whether the bytes are a stored vector of those dimensions, all finite.
pub fn embedding_blob_is_valid(bytes: &Vec<u8>, dimensions: u32) -> (valid: bool)
    ensures
        valid == is_stored_vector(bytes@, dimensions),
{
    decode_embedding(bytes, dimensions).is_some()
}

impl SemanticView {
    /// Whether a ready chunk has no vector that fits its profile.
    pub open spec fn is_corrupt(self, chunk: ChunkView) -> bool {
        chunk.state == ChunkState::Ready && !(chunk.profile < self.profiles.len()
            && chunk.embedding is Some && is_stored_vector(
            chunk.embedding->0,
            self.profiles[chunk.profile as int].dimensions,
        ))
    }

    /// What is wrong with the vectors of the first `n` chunks.
    pub open spec fn vector_findings(self, n: int) -> Seq<FindingView>
        decreases n,
    {
        if n <= 0 {
            Seq::empty()
        } else if self.is_corrupt(self.chunks[n - 1]) {
            self.vector_findings(n - 1).push(
                FindingView {
                    code: "semantic_embedding"@,
                    node_id: Some(self.chunks[n - 1].node_id),
                    detail: "stored embedding does not fit its profile"@,
                },
            )
        } else {
            self.vector_findings(n - 1)
        }
    }
}

impl SemanticIndex {
    /// Adds to a report what is wrong with the stored vectors.
    pub fn report_vectors(&self, report: &mut IntegrityReport)
        ensures
            finding_views(final(report).findings@) == finding_views(old(report).findings@)
                + self@.vector_findings(self@.chunks.len() as int),
    {
        let ghost before = finding_views(report.findings@);
        let mut i: usize = 0;
        assert(before + self@.vector_findings(0) =~= before);
        while i < self.chunks.len()
            invariant
                i <= self.chunks.len(),
                finding_views(report.findings@) == before + self@.vector_findings(i as int),
            decreases self.chunks.len() - i,
        {
            let row = &self.chunks[i];
            assert(self@.chunks[i as int] == row@);
            let corrupt: bool = if row.state == ChunkState::Ready {
                match &row.embedding {
                    Some(bytes) => {
                        if row.profile < self.profiles.len() {
                            assert(self@.profiles[row.profile as int]
                                == self.profiles@[row.profile as int]@);
                            !embedding_blob_is_valid(bytes, self.profiles[row.profile].dimensions)
                        } else {
                            true
                        }
                    },
                    None => true,
                }
            } else {
                false
            };
            if corrupt {
                let ghost so_far = finding_views(report.findings@);
                let finding = IntegrityFinding {
                    code: "semantic_embedding".to_owned(),
                    node_id: Some(row.node_id),
                    detail: "stored embedding does not fit its profile".to_owned(),
                };
                let ghost view = finding@;
                report.findings.push(finding);
                assert(finding_views(report.findings@) =~= so_far.push(view));
                assert(before + self@.vector_findings(i + 1) =~= so_far.push(view));
            }
            i = i + 1;
        }
        assert(self@.chunks.len() == self.chunks@.len());
    }
}

/// A chunk of a section that is gone does not outlive it.
pub proof fn law_no_chunk_outlives_its_section(t: SemanticView, sections: Seq<Arc<Section>>, i: int)
    requires
        0 <= i < t.anchored(sections).chunks.len(),
    ensures
        is_anchored(sections, t.anchored(sections).chunks[i]),
{
    let keep = |c: ChunkView| is_anchored(sections, c);
    let kept = t.chunks.filter(keep);
    crate::shape::lemma_filter_facts(t.chunks, keep);
    assert(keep(kept[i]));
}

/// A node with its current sections.
#[derive(Debug)]
pub struct SemanticSource {
    pub node: Node,
    pub sections: Vec<Arc<Section>>,
}

/// The positions of the sections in storage.
pub open spec fn section_rows(sections: Seq<Arc<Section>>) -> Seq<usize> {
    Seq::new(sections.len(), |i: int| i as usize)
}

/// Whether `order` holds the storage positions of a node's sections, by section
/// position and, where those repeat, by storage position.
pub open spec fn orders_sections(
    sections: Seq<Arc<Section>>,
    id: NodeId,
    order: Seq<usize>,
) -> bool {
    crate::listing::lists(
        section_rows(sections),
        |i: usize| sections[i as int].node_id == id,
        |i: usize| seq![sections[i as int].position as u128, i as u128],
        order,
    )
}

/// Whether `listed` holds the sections of a node by position, earlier rows first
/// where positions repeat.
pub open spec fn lists_sections(
    sections: Seq<Arc<Section>>,
    id: NodeId,
    listed: Seq<Arc<Section>>,
) -> bool {
    exists|order: Seq<usize>| #[trigger]
        orders_sections(sections, id, order) && listed == Seq::new(
            order.len(),
            |i: int| sections[order[i] as int],
        )
}

fn sections_of(sections: &Vec<Arc<Section>>, id: NodeId) -> (listed: Vec<Arc<Section>>)
    ensures
        lists_sections(sections@, id, listed@),
{
    let ghost rows = section_rows(sections@);
    let ghost pred = |i: usize| sections@[i as int].node_id == id;
    let ghost key = |i: usize| seq![sections@[i as int].position as u128, i as u128];
    let mut picked: Vec<usize> = Vec::new();
    let mut keys: Vec<Vec<u128>> = Vec::new();
    let mut i: usize = 0;
    while i < sections.len()
        invariant
            i <= sections.len(),
            rows == section_rows(sections@),
            pred == (|i: usize| sections@[i as int].node_id == id),
            key == (|i: usize| seq![sections@[i as int].position as u128, i as u128]),
            keys.len() == picked.len(),
            picked@.no_duplicates(),
            forall|k: int|
                0 <= k < picked.len() ==> #[trigger] picked@[k] < i && pred(
                    rows[picked@[k] as int],
                ),
            forall|j: int| 0 <= j < i && pred(#[trigger] rows[j]) ==> picked@.contains(j as usize),
            forall|k: int|
                0 <= k < picked.len() ==> #[trigger] keys@[k]@ == key(rows[picked@[k] as int]),
        decreases sections.len() - i,
    {
        let ghost before = picked@;
        assert(rows[i as int] == i);
        if sections[i].node_id == id {
            let mut k: Vec<u128> = Vec::new();
            k.push(sections[i].position as u128);
            k.push(i as u128);
            assert(k@ =~= key(i));
            keys.push(k);
            picked.push(i);
            proof {
                assert(picked@[before.len() as int] == i);
                assert forall|j: int| 0 <= j < i + 1 && pred(#[trigger] rows[j]) implies picked@.contains(
                j as usize) by {
                    if j < i {
                        let k = choose|k: int| 0 <= k < before.len() && before[k] == j as usize;
                        assert(picked@[k] == j as usize);
                    }
                }
            }
        }
        i = i + 1;
    }
    let order = crate::order::sorted_positions(&keys);
    let mut chosen: Vec<usize> = Vec::new();
    let mut listed: Vec<Arc<Section>> = Vec::new();
    let mut n: usize = 0;
    while n < order.len()
        invariant
            n <= order.len(),
            order.len() == picked.len(),
            rows == section_rows(sections@),
            forall|i: int| 0 <= i < order.len() ==> #[trigger] order@[i] < picked.len(),
            forall|k: int| 0 <= k < picked.len() ==> #[trigger] picked@[k] < sections.len(),
            chosen.len() == n,
            listed.len() == n,
            forall|m: int|
                0 <= m < n ==> #[trigger] chosen@[m] == rows[picked@[order@[m] as int] as int],
            forall|m: int| 0 <= m < n ==> #[trigger] listed@[m] == sections@[chosen@[m] as int],
        decreases order.len() - n,
    {
        let at: usize = picked[order[n]];
        assert(rows[at as int] == at);
        chosen.push(at);
        listed.push(share(&sections[at]));
        n = n + 1;
    }
    proof {
        assert forall|k: int, l: int|
            0 <= k < picked.len() && 0 <= l < picked.len() && k != l implies key(
            rows[#[trigger] picked@[k] as int],
        ) != key(rows[#[trigger] picked@[l] as int]) by {
            let a = picked@[k];
            let b = picked@[l];
            assert(rows[a as int] == a && rows[b as int] == b);
            assert(key(a)[1] == a as u128);
            assert(key(b)[1] == b as u128);
        }
        assert(crate::listing::picks(rows, pred, picked@));
        assert(crate::listing::arranges(rows, picked@, keys@, order@, chosen@));
        crate::listing::lemma_arranged_lists(
            rows,
            pred,
            key,
            picked@,
            keys@,
            order@,
            chosen@,
        );
        assert(orders_sections(sections@, id, chosen@));
        assert(listed@ =~= Seq::new(chosen@.len(), |i: int| sections@[chosen@[i] as int]));
    }
    listed
}

impl SqliteStore {
    /// Returns every canonical node and its current sections in stable tree
    /// order.
    pub fn semantic_sources(&self) -> (result: Result<Vec<SemanticSource>, StoreError>)
        requires
            is_forest(self@.nodes),
        ensures
            match root_of(self@.nodes) {
                None => result is Err && result->Err_0@ == Refusal::NotFound("root"@),
                Some(root) => result is Ok && exists|walked: Seq<crate::traverse::Placed>|
                    {
                        &&& #[trigger] crate::reads::subtree_extent(root.id).walks(
                            self@.nodes,
                            walked,
                        )
                        &&& result->Ok_0@.len() == walked.len()
                        &&& forall|i: int|
                            0 <= i < walked.len() ==> (#[trigger] result->Ok_0@[i]).node
                                == walked[i].node && lists_sections(
                                self@.sections,
                                walked[i].node.id,
                                result->Ok_0@[i].sections@,
                            )
                    },
            },
    {
        let root = self.root()?;
        let walked = self.subtree(root.id);
        let mut sources: Vec<SemanticSource> = Vec::new();
        let mut i: usize = 0;
        while i < walked.len()
            invariant
                i <= walked.len(),
                sources.len() == i,
                forall|k: int|
                    0 <= k < i ==> (#[trigger] sources@[k]).node == walked@[k].node
                        && lists_sections(
                        self@.sections,
                        walked@[k].node.id,
                        sources@[k].sections@,
                    ),
            decreases walked.len() - i,
        {
            let sections = sections_of(&self.sections, walked[i].node.id);
            sources.push(SemanticSource { node: walked[i].node.copy(), sections });
            i = i + 1;
        }
        assert(crate::reads::subtree_extent(root.id).walks(self@.nodes, walked@));
        Ok(sources)
    }
}

/// Whether the index goes from one state to the other by storing a vector for the work.
pub open spec fn stores_embedding(
    t: SemanticView,
    u: SemanticView,
    work: SemanticChunkWork,
    embedding: Seq<u32>,
    updated_at: u64,
    result: Result<SemanticWriteOutcome, StoreError>,
) -> bool {
    if !all_finite(embedding) {
        result is Err && result->Err_0@ == Refusal::InvalidData(
            "semantic embedding contains a non-finite value"@,
        ) && u == t
    } else if !storable(updated_at) {
        result is Err && result->Err_0@ == time_refusal(updated_at)->0 && u
            == t
    } else {
        match t.active {
            None => result == Ok::<SemanticWriteOutcome, StoreError>(
                SemanticWriteOutcome::Stale,
            ) && u == t,
            Some(p) => if t.profiles[p as int].dimensions != embedding.len() {
                result is Err && result->Err_0@ == Refusal::InvalidData(
                    "semantic embedding has "@ + decimal(embedding.len())
                        + " dimensions, expected "@ + decimal(
                        t.profiles[p as int].dimensions as nat,
                    ),
                ) && u == t
            } else {
                &&& result == Ok::<SemanticWriteOutcome, StoreError>(
                    outcome_of(t, work),
                )
                &&& u == t.resolved(
                    work,
                    ChunkState::Ready,
                    Some(encoded(embedding, embedding.len() as int)),
                    None,
                    updated_at,
                )
            },
        }
    }
}

/// Whether the index goes from one state to the other by recording a failure of the work.
pub open spec fn records_failure(
    t: SemanticView,
    u: SemanticView,
    work: SemanticChunkWork,
    error: Seq<char>,
    updated_at: u64,
    result: Result<SemanticWriteOutcome, StoreError>,
) -> bool {
    if is_blank(error) {
        result is Err && result->Err_0@ == Refusal::InvalidData(
            "semantic failure detail must not be blank"@,
        ) && u == t
    } else if !storable(updated_at) {
        result is Err && result->Err_0@ == time_refusal(updated_at)->0 && u
            == t
    } else if t.active is None {
        result == Ok::<SemanticWriteOutcome, StoreError>(SemanticWriteOutcome::Stale)
            && u == t
    } else {
        &&& result == Ok::<SemanticWriteOutcome, StoreError>(
            outcome_of(t, work),
        )
        &&& u == t.resolved(
            work,
            ChunkState::Failed,
            None,
            Some(error),
            updated_at,
        )
    }
}

/// Whether the status is that of the index.
pub open spec fn is_status_of(
    t: SemanticView,
    status: SemanticIndexStatus,
) -> bool {
    match t.active {
        None => status.profile is None && status.coverage == (SemanticIndexCoverage {
            total: 0,
            pending: 0,
            processing: 0,
            ready: 0,
            failed: 0,
            revision: t.revision,
        }),
        Some(p) => {
            let n = t.chunks.len() as int;
            &&& status.profile is Some
            &&& status.profile->0@ == t.profiles[p as int]
            &&& status.coverage.pending == t.standing(ChunkState::Pending, n)
            &&& status.coverage.processing == t.standing(ChunkState::Processing, n)
            &&& status.coverage.ready == t.standing(ChunkState::Ready, n)
            &&& status.coverage.failed == t.standing(ChunkState::Failed, n)
            &&& status.coverage.total == status.coverage.pending
                + status.coverage.processing + status.coverage.ready
                + status.coverage.failed
            &&& status.coverage.revision == t.revision
        },
    }
}

} // verus!
