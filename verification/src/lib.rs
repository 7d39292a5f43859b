//! Gradle version-catalog inspection: catalog normalisation, catalog
//! comparison, resolved-graph decoding checks, dependency-tree mapping,
//! release-link decisions, plain-text reports and interactive state.

pub mod text;
pub mod model;
pub mod order;
pub mod catalog;
pub mod changes;
pub mod export;
pub mod gradle;
pub mod graph;
pub mod inspect;
pub mod plain;
pub mod releases;
pub mod tui;
