//! In-memory index structures: the neighbourhood graph, the trees that seed
//! graph search, and their on-disk layouts.
pub mod graph;
pub mod sptag;
pub mod tptree;
pub mod bktree;
pub mod bktree_recursive;
pub mod bktree_build;
pub mod rng;
pub mod sptag_bkt;
