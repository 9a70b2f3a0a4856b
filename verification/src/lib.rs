//! A verified engine for trees of Markdown nodes kept in relational tables.

pub mod admission_laws;
pub mod answer_laws;
pub mod assets;
pub mod batch_laws;
pub mod chunk_laws;
pub mod clone;
pub mod clone_laws;
pub mod command_laws;
pub mod commands;
pub mod context;
pub mod context_laws;
pub mod create;
pub mod destinations;
pub mod detail_laws;
pub mod diagnostic_laws;
pub mod diagnostics;
pub mod edits;
pub mod effect_laws;
pub mod fts;
pub mod health_laws;
pub mod history;
pub mod integrity;
pub mod laws;
pub mod listing;
pub mod lookup;
pub mod lookup_laws;
pub mod maintenance;
pub mod markdown;
pub mod migrations;
pub mod model;
pub mod mutate;
pub mod mutation_batch;
pub mod order;
pub mod order_laws;
pub mod page_laws;
pub mod pages;
pub mod paging;
pub mod projections;
pub mod query;
pub mod read_laws;
pub mod reads;
pub mod realtime;
pub mod record_laws;
pub mod references;
pub mod relations;
pub mod removal;
pub mod reorder;
pub mod report_laws;
pub mod request_laws;
pub mod resolution_laws;
pub mod result_laws;
pub mod revision_laws;
pub mod route_laws;
pub mod run_laws;
pub mod scope_laws;
pub mod search;
pub mod search_laws;
pub mod semantic;
pub mod serving;
pub mod session;
pub mod setup_laws;
pub mod shape;
pub mod snapshot;
pub mod snapshot_laws;
pub mod summaries;
pub mod tables;
pub mod text;
pub mod text_laws;
pub mod traverse;
pub mod tree;
pub mod tree_batch;
pub mod web_laws;
pub mod web_search;
pub mod words;
pub mod workspace;
