//! Semantic chunks: profiles, queued work and stored vectors.

use std::sync::Arc;

use mdtree::diagnostics::RebuiltNode;
use mdtree::integrity::ComputedHashes;
use mdtree::model::{
    DerivedNodeRecords, FtsDocument, Node, NodeHash, NodeId, NodeMetadata, Section, StoreError,
};
use mdtree::semantic::{
    decode_embedding, embedding_blob_is_valid, encode_embedding, EmbeddingMetric, EmbeddingProfile,
    SemanticChunk, SemanticIndex, SemanticWriteOutcome,
};
use mdtree::tables::SqliteStore;
use mdtree::workspace::create_workspace;

const ROOT: &str = "01JZ8Q5CWPN8T7KPN5A1V9B6XM";

fn id(value: &str) -> NodeId {
    NodeId::new(ulid::Ulid::from_string(value).expect("fixture ID").0)
}

fn hash(text: &str) -> NodeHash {
    let low = text.bytes().fold(7_u128, |sum, byte| sum * 31 + u128::from(byte));
    NodeHash { high: 3, low }
}

fn bits(values: &[f32]) -> Vec<u32> {
    values.iter().map(|value| value.to_bits()).collect()
}

fn bytes(values: &[f32]) -> Vec<u8> {
    values.iter().flat_map(|value| value.to_le_bytes()).collect()
}

fn root() -> Node {
    Node {
        id: id(ROOT),
        parent_id: None,
        slug: "project".into(),
        metadata: Arc::new(NodeMetadata {
            title: "Project".into(),
            summary: None,
            node_type: None,
            accepts_children: vec![],
            aliases: vec![],
            tags: vec![],
            keywords: vec![],
            owns: vec![],
            excludes: vec![],
            extra: "{}".into(),
        }),
        markdown_content: "# Project\nSemantic search.\n".into(),
        sibling_order: 0,
        version: 1,
        content_hash: hash("content"),
        revision_hash: hash("revision"),
        created_at: 1,
        updated_at: 1,
    }
}

fn derived(node: &Node, seed: u128) -> DerivedNodeRecords {
    let section = |offset: u128, position: u32| {
        Arc::new(Section {
            id: NodeId::new(seed + offset),
            node_id: node.id,
            parent_section_id: None,
            heading: None,
            heading_level: None,
            anchor: None,
            start_byte: 0,
            end_byte: 1,
            content: node.markdown_content.clone(),
            content_hash: vec![1; 32],
            position,
        })
    };
    let document = |offset: u128| {
        Arc::new(FtsDocument {
            section_id: NodeId::new(seed + offset),
            node_id: node.id,
            title: "Project".into(),
            aliases: String::new(),
            summary: String::new(),
            heading: String::new(),
            content: String::new(),
            tags: String::new(),
            keywords: String::new(),
        })
    };
    DerivedNodeRecords {
        content_hash: node.content_hash,
        sections: vec![section(1, 1), section(0, 0)],
        references: vec![],
        fts_documents: vec![document(0), document(1)],
    }
}

fn workspace() -> (SqliteStore, SemanticIndex) {
    let root = root();
    let store = create_workspace("semantic.mdtree", false, &root, &derived(&root, 100))
        .expect("workspace");
    let index = SemanticIndex { profiles: vec![], active: None, revision: 0, chunks: vec![] };
    (store, index)
}

fn profile(model: &str, dimensions: u32) -> EmbeddingProfile {
    EmbeddingProfile {
        provider: "ollama".into(),
        model: model.into(),
        dimensions,
        metric: EmbeddingMetric::Cosine,
        input_format_version: 1,
    }
}

fn chunk(input: &str) -> SemanticChunk {
    SemanticChunk {
        node_id: id(ROOT),
        section_id: NodeId::new(100),
        position: 0,
        start_byte: 0,
        end_byte: 1,
        input: Arc::new(input.into()),
        input_hash: hash(input),
    }
}

#[test]
fn lifecycle_rejects_stale_invalid_and_incompatible_vectors() {
    let (store, mut index) = workspace();
    index
        .replace_node_semantic_chunks(&store, id(ROOT), &profile("embed", 3), &vec![chunk("input")], 1)
        .expect("replace");
    let coverage = index.semantic_index_status().coverage;
    assert_eq!((coverage.total, coverage.pending), (1, 1));
    let work = index.claim_semantic_chunks(1, 2).expect("claim").pop().expect("work");
    assert_eq!(work.attempt, 1);
    assert!(index
        .store_semantic_embedding(&work, &bits(&[f32::NAN, 0.0, 1.0]), 3)
        .is_err());
    assert!(index.store_semantic_embedding(&work, &bits(&[0.0, 1.0]), 3).is_err());
    assert_eq!(
        index
            .store_semantic_embedding(&work, &bits(&[0.0, 1.0, 0.0]), 3)
            .expect("store"),
        SemanticWriteOutcome::Stored
    );
    assert_eq!(
        index.chunks[0].embedding.as_deref(),
        Some(&bytes(&[0.0, 1.0, 0.0]))
    );
    assert_eq!(
        index
            .store_semantic_embedding(&work, &bits(&[0.0, 1.0, 0.0]), 4)
            .expect("repeat"),
        SemanticWriteOutcome::Stale
    );
    let coverage = index.semantic_index_status().coverage;
    assert_eq!((coverage.total, coverage.ready), (1, 1));
}

#[test]
fn failure_retry_clear_and_profile_switch_are_explicit() {
    let (store, mut index) = workspace();
    index
        .replace_node_semantic_chunks(&store, id(ROOT), &profile("embed", 2), &vec![chunk("input")], 1)
        .expect("replace");
    let work = index.claim_semantic_chunks(1, 2).expect("claim").remove(0);
    assert_eq!(
        index.fail_semantic_chunk(&work, "provider unavailable", 3).expect("fail"),
        SemanticWriteOutcome::Stored
    );
    assert_eq!(index.semantic_index_status().coverage.failed, 1);
    assert_eq!(index.retry_failed_semantic_chunks(4).expect("retry"), 1);
    assert_eq!(index.semantic_index_status().coverage.pending, 1);
    index.activate_semantic_profile(&profile("other", 4)).expect("switch");
    assert_eq!(index.semantic_index_status().coverage.total, 0);
    index.clear_semantic_index();
    assert!(index.semantic_index_status().profile.is_none());
    assert!(index.chunks.is_empty());
}

#[test]
fn interrupted_work_is_recovered() {
    let (store, mut index) = workspace();
    index
        .replace_node_semantic_chunks(&store, id(ROOT), &profile("embed", 2), &vec![chunk("input")], 1)
        .expect("replace");
    assert_eq!(index.claim_semantic_chunks(5, 2).expect("claim").len(), 1);
    assert!(index.claim_semantic_chunks(5, 2).expect("nothing left").is_empty());
    assert_eq!(index.recover_processing_semantic_chunks(3).expect("recover"), 1);
    assert_eq!(index.semantic_index_status().coverage.processing, 0);
    let again = index.claim_semantic_chunks(5, 4).expect("claim");
    assert_eq!(again[0].attempt, 2);
}

#[test]
fn ready_vector_is_reused_only_for_an_identical_profile_and_input_hash() {
    let (store, mut index) = workspace();
    let profile = profile("embed", 2);
    let list = || vec![chunk("same")];
    index
        .replace_node_semantic_chunks(&store, id(ROOT), &profile, &list(), 1)
        .expect("replace");
    let work = index.claim_semantic_chunks(1, 2).expect("claim").remove(0);
    index.store_semantic_embedding(&work, &bits(&[1.0, 0.0]), 3).expect("store");
    index
        .replace_node_semantic_chunks(&store, id(ROOT), &profile, &list(), 4)
        .expect("replace identical");
    assert_eq!(index.semantic_index_status().coverage.ready, 1);

    let hashes: Vec<ComputedHashes> = store
        .nodes
        .iter()
        .map(|node| ComputedHashes {
            node_id: node.id,
            content_hash: node.content_hash,
            revision_hash: node.revision_hash,
        })
        .collect();
    assert!(store.validate_integrity(&hashes, &index).is_healthy());
    index.chunks[0].embedding = Some(Arc::new(bytes(&[f32::NAN, 0.0])));
    let report = store.validate_integrity(&hashes, &index);
    assert!(!report.is_healthy());
    assert!(report.findings.iter().any(|finding| finding.code == "semantic_embedding"));

    index
        .replace_node_semantic_chunks(&store, id(ROOT), &profile, &vec![chunk("other")], 5)
        .expect("replace with other input");
    assert_eq!(index.semantic_index_status().coverage.pending, 1);
}

#[test]
fn deleting_a_section_cascades_chunks_and_advances_semantic_revision() {
    let (mut store, mut index) = workspace();
    index
        .replace_node_semantic_chunks(&store, id(ROOT), &profile("embed", 2), &vec![chunk("input")], 1)
        .expect("replace");
    let before = index.semantic_index_status().coverage.revision;
    index.drop_orphans(&store);
    assert_eq!(index.semantic_index_status().coverage.total, 1);
    assert_eq!(index.semantic_index_status().coverage.revision, before);
    store.sections.retain(|section| section.id != NodeId::new(100));
    index.drop_orphans(&store);
    let after = index.semantic_index_status().coverage;
    assert_eq!(after.total, 0);
    assert!(after.revision > before);
}

#[test]
fn derived_rebuild_explicitly_invalidates_profile_chunks() {
    let (mut store, mut index) = workspace();
    let active = profile("embed", 2);
    index
        .replace_node_semantic_chunks(&store, id(ROOT), &active, &vec![chunk("input")], 1)
        .expect("replace");
    let before = index.semantic_index_status().coverage.revision;
    let root = root();
    store
        .rebuild_derived(&vec![RebuiltNode { node_id: root.id, derived: derived(&root, 500) }])
        .expect("rebuild");
    index.drop_orphans(&store);
    let status = index.semantic_index_status();
    assert_eq!(status.coverage.total, 0);
    assert!(status.coverage.revision > before);
    assert_eq!(status.profile.expect("profile").model, active.model);
}

#[test]
fn invalid_node_identity_and_zero_claim_limit_are_rejected() {
    let (store, mut index) = workspace();
    assert!(index.claim_semantic_chunks(0, 1).is_err());
    let unknown = id("01JZ8Q5CWPN8T7KPN5A1V9B6XZ");
    assert!(matches!(
        index.replace_node_semantic_chunks(&store, unknown, &profile("embed", 2), &vec![], 1),
        Err(StoreError::NotFound(_))
    ));
}

#[test]
fn failed_chunk_replacement_rolls_back_the_previous_ready_index() {
    let (store, mut index) = workspace();
    let profile = profile("embed", 2);
    index
        .replace_node_semantic_chunks(&store, id(ROOT), &profile, &vec![chunk("valid")], 1)
        .expect("replace");
    let work = index.claim_semantic_chunks(1, 2).expect("claim").remove(0);
    index.store_semantic_embedding(&work, &bits(&[1.0, 0.0]), 3).expect("ready");

    let mut invalid = chunk("invalid");
    invalid.section_id = id("01JZ8Q5CWPN8T7KPN5A1V9B6XZ");
    let error = index
        .replace_node_semantic_chunks(&store, id(ROOT), &profile, &vec![invalid], 4)
        .expect_err("unknown section");
    assert_eq!(
        error.message(),
        format!(
            "invalid persisted node: semantic section 01JZ8Q5CWPN8T7KPN5A1V9B6XZ does not belong \
             to node {ROOT}"
        )
    );
    let mut foreign = chunk("foreign");
    foreign.node_id = NodeId::new(5);
    assert!(index
        .replace_node_semantic_chunks(&store, id(ROOT), &profile, &vec![foreign], 4)
        .is_err());
    let mut long = chunk("long");
    long.end_byte = u64::MAX;
    assert_eq!(
        index
            .replace_node_semantic_chunks(&store, id(ROOT), &profile, &vec![long], 4)
            .expect_err("range")
            .message(),
        "invalid persisted node: semantic end_byte exceeds SQLite"
    );
    let coverage = index.semantic_index_status().coverage;
    assert_eq!((coverage.ready, coverage.total), (1, 1));
}

#[test]
fn profiles_name_a_provider_a_model_and_dimensions() {
    let (store, mut index) = workspace();
    for broken in [
        EmbeddingProfile { provider: " ".into(), ..profile("embed", 2) },
        profile("\t", 2),
        profile("embed", 0),
        EmbeddingProfile { input_format_version: 0, ..profile("embed", 2) },
    ] {
        assert!(index
            .replace_node_semantic_chunks(&store, id(ROOT), &broken, &vec![], 1)
            .is_err());
        assert!(index.activate_semantic_profile(&broken).is_err());
    }
    assert!(index
        .replace_node_semantic_chunks(&store, id(ROOT), &profile("embed", 2), &vec![], u64::MAX)
        .is_err());
}

#[test]
fn vectors_are_stored_as_little_endian_floats() {
    let values = [1.5_f32, -0.25, 0.0, f32::MAX];
    let encoded = encode_embedding(&bits(&values));
    assert_eq!(encoded, bytes(&values));
    assert_eq!(decode_embedding(&encoded, 4), Some(bits(&values)));
    assert_eq!(decode_embedding(&encoded, 3), None);
    assert!(embedding_blob_is_valid(&encoded, 4));
    assert!(!embedding_blob_is_valid(&bytes(&[f32::INFINITY]), 1));
    assert!(!embedding_blob_is_valid(&bytes(&[f32::NAN]), 1));
}

#[test]
fn sources_hold_sections_in_reading_order() {
    let (store, _) = workspace();
    let sources = store.semantic_sources().expect("sources");
    assert_eq!(sources.len(), 1);
    assert_eq!(sources[0].node.id, id(ROOT));
    let positions: Vec<u32> = sources[0].sections.iter().map(|section| section.position).collect();
    assert_eq!(positions, vec![0, 1]);
    let empty = mdtree::workspace::new_tables();
    assert!(matches!(empty.semantic_sources(), Err(StoreError::NotFound(_))));
}
