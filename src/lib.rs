//! An ordered index of non-overlapping note intervals, one skip list per grid line.
//!
//! Each skip list keeps its interval payloads and its nodes in two slab arenas and links
//! nodes by typed integer handles. Besides insertion and ordered iteration it answers gap
//! queries ("what free span surrounds this beat") and renders its link structure as text.

mod arena;
pub mod grid;
pub mod handle;
pub mod levels;
pub mod note;
pub mod lines;
pub mod selection_box;
pub mod skip_list;
