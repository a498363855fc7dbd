//! Configuration loading with verified merge-and-resolve semantics.
//!
//! The crate models configuration data as a [`Value`] tree, deep-merges the
//! trees produced by files, environment variables and command-line arguments
//! under a fixed priority order, determines which required fields are still
//! missing, and exposes the pieces an application needs to run the full
//! pipeline.

pub mod analyzer;
pub mod cli_source;
pub mod env_source;
pub mod error;
pub mod formats;
pub mod loader;
pub mod merge;
pub mod meta;
pub mod paths;
pub mod scalar;
pub mod text;
pub mod value;

pub use error::Error;
pub use error::ParseFileFormatError;
pub use loader::ConfigLoader;
pub use meta::ConfigMeta;
pub use meta::FieldAnalysis;
pub use meta::FieldMeta;
pub use value::SpecValue;
pub use value::Value;
