//! Analysis, filtering and pruning of Nix garbage-collector roots.

pub mod answers;
pub mod cache;
pub mod figures;
pub mod format;
pub mod laws;
pub mod list;
pub mod nix;
pub mod number;
pub mod output;
pub mod paths;
pub mod scaled;
pub mod size;
pub mod sort;
pub mod summary;
pub mod text;
pub mod tui;
pub mod walk;
