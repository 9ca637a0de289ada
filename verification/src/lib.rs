//! Curates image datasets: integrity classification, near-duplicate removal,
//! and visual similarity retrieval.
//!
//! The core is the perceptual-hash engine shared by the dedup and retrieve
//! commands: fingerprint extraction ([`fingerprint`]), a nearest-neighbor
//! similarity index ([`index`]), threshold-based duplicate clustering with a
//! deterministic size-based tie-break ([`resolver`], [`deduplicator`]), and
//! ranked similarity queries ([`retrival`]).
//!
//! File discovery, raw file reading, result staging and styled terminal
//! output are collaborators that live outside this crate; the library works
//! on plain values (paths as strings, file bytes, sizes) handed in by its
//! caller.

pub mod cli;
pub mod corpus;
pub mod deduplicator;
pub mod errors;
pub mod fingerprint;
pub mod image_files;
pub mod index;
pub mod resolver;
pub mod retrival;
pub mod sanitizer;
pub mod utils;

pub use cli::{Cli, Method, Task};
pub use deduplicator::DeDuplicator;
pub use errors::EngineError;
pub use fingerprint::Fingerprint;
pub use image_files::ImageFiles;
pub use index::SimilarityIndex;
pub use retrival::Retrival;
pub use utils::Logger;
