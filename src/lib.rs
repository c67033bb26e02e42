//! Near-duplicate detection over sets of 64-bit perceptual fingerprints.

pub mod collection;
pub mod decode;
pub mod dhash;
pub mod matcher;
pub mod pipeline;

pub use collection::Collection;
pub use dhash::DHash;
pub use matcher::{Duplicate, IdWithDistance};
pub use pipeline::Pipeline;
