use vstd::prelude::*;

pub mod text;
pub mod version;
pub mod order;
pub mod render;
pub mod registries;
pub mod shard;
pub mod module;
pub mod engine;
pub mod error;
pub mod tagger;
pub mod utils;
pub mod nv;
pub mod normalize;
pub mod x;
pub mod nest;
pub mod codec;
pub mod pass;
pub mod canon;

pub use error::DepsError;
pub use module::{Module, Snapshot};
pub use registries::{RegistryId, RegistryInfo};
pub use version::{Version, VersionCore, Identifier, SemVerError};

verus! {

} // verus!
