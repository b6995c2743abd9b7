//! Garbage collection and hard-link deduplication for a Nix store.
use vstd::prelude::*;

pub mod auto_roots;
pub mod cli;
pub mod collector;
pub mod comparison;
pub mod db;
pub mod deletion;
pub mod gc;
pub mod gc_socket;
pub mod graph;
pub mod hash;
pub mod live_set;
pub mod logging;
pub mod mount;
pub mod nix_expr;
pub mod numbers;
pub mod optimise;
pub mod paths;
pub mod profiles;
pub mod random_store;
pub mod roots;
pub mod size;
pub mod store_path;
pub mod temp_roots;
pub mod text;
pub mod text_set;

verus! {

} // verus!
