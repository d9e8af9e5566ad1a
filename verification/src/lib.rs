//! Resolution of WIT packages.
pub mod addresses;
pub mod again;
pub mod agreement;
pub mod append;
pub mod arena;
pub mod arrival;
pub mod bits;
pub mod bound;
pub mod clashes;
pub mod closure;
pub mod copies;
pub mod counterparts;
pub mod correspondence;
pub mod dependencies;
pub mod descent;
pub mod elaborate;
pub mod elaboration;
pub mod error;
pub mod held;
pub mod host;
pub mod lineage;
pub mod link;
pub mod listings;
pub mod load;
pub mod loaded;
pub mod loading;
pub mod locate;
pub mod matching;
pub mod merge;
pub mod merge_laws;
pub mod moving;
pub mod names;
pub mod numbers;
pub mod order;
pub mod package;
pub mod parents;
pub mod precedence;
pub mod readiness;
pub mod references;
pub mod remap;
pub mod renumbering;
pub mod reports;
pub mod resolve;
pub mod search;
pub mod select;
pub mod selection;
pub mod sharing;
pub mod sorting;
pub mod types;
pub mod unions;
pub mod unit;
pub mod validity;
pub mod visits;
pub mod worlds;

pub use crate::error::Error;
pub use crate::load::Loader;
pub use crate::package::UnresolvedPackage;
pub use crate::remap::Remap;
pub use crate::resolve::Resolve;
