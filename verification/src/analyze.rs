//! Streaming shape analysis.
pub mod formats;
pub mod dist;
pub mod stats;
pub mod sig;
pub mod noted;
pub mod observed;
pub mod recognized;
pub mod epochs;
pub mod settled;
pub mod told;
pub mod spread;
pub mod order;
pub mod canon;
pub mod shape;
pub mod arena;
pub mod machine;
pub mod outline;
pub mod summary;
pub mod figures;
pub mod tokens;
pub mod laws;
pub mod finish;
pub mod decide;
pub mod engine;
pub mod upkeep;
pub mod memory;
