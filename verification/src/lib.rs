//! Code-intelligence core for NESFab sources: a symbol index over parsed
//! files, a dependency graph read from build-configuration files, and the
//! hover / go-to-definition / completion queries answered from both.

pub mod backend;
pub mod cfg;
pub mod names;
pub mod store;
pub mod symbol;
pub mod text;
pub mod tree;
