//! An online log template miner: ingests free-form log lines one at a time and
//! incrementally discovers the message templates that generated them.
//!
//! The crate is organised around three subsystems: a masker that replaces
//! known patterns (IPs, numbers, ...) with named placeholders, a fixed-depth
//! prefix-tree clustering engine, and a parameter extractor that recovers the
//! values that filled a template's placeholder slots.

pub mod cluster;
pub mod config;
pub mod drain;
pub mod extract;
pub mod laws;
pub mod masking;
pub mod model;
pub mod persistence;
pub mod snapshot;
pub mod template_miner;
pub mod text;

pub use cluster::LogCluster;
pub use cluster::SearchStrategy;
pub use cluster::TokenScheme;
pub use cluster::UpdateType;
pub use config::TemplateMinerConfig;
pub use drain::Drain;
pub use masking::LogMasker;
pub use masking::MaskingInstruction;
pub use masking::MaskingInstructionConfig;
pub use persistence::PersistenceHandler;
pub use template_miner::ExtractedParameter;
pub use template_miner::TemplateMiner;
