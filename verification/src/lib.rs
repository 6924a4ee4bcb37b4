pub mod text;
pub mod error;
pub mod fuse_key;
pub mod assoc;
pub mod cube;
pub mod show;
pub mod names;
pub mod load;
pub mod build_tree;
pub mod tui;
pub mod renaming;
pub mod destroying;
pub mod unknown;
pub mod history;
pub mod laws;
pub mod round_trip;
