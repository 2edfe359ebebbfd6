//! Ancestry analytics over a genealogical record base: an index of
//! "is-child-of" edges, Sosa-Stradonitz numbering, consanguinity
//! coefficients, and the policy that keeps the edge index and the snapshot
//! cache coherent with the authoritative record store.

pub mod ancestors;
pub mod cache;
pub mod changes;
pub mod coefficient;
pub mod consanguinity;
pub mod dates;
pub mod error;
pub mod family;
pub mod graph;
pub mod ident;
pub mod inbreeding;
pub mod paths;
pub mod pedigree;
pub mod plugins;
pub mod policy;
pub mod relationship;
pub mod sosa;
pub mod sums;
pub mod text;
pub mod types;
