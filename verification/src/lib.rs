//! treedoc: a `tree(1)`-style listing whose entries carry comments kept in
//! a `.treedoc.yaml` sidecar file.
use vstd::prelude::*;

pub mod comments;
pub mod output;
pub mod render;
pub mod text;
pub mod tree;
pub mod yaml;

pub use comments::{init_comments, Comments, CommentsError};
pub use output::{frame_output, may_write_init, use_color, Format};
pub use render::{display_name, render, RenderOptions};
pub use text::{join_rel_path, normalize_key};
pub use tree::{build, entry_shown, Listing, Node, WalkOptions, SIDECAR_FILENAME};

verus! {

} // verus!
