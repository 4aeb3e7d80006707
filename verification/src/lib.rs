//! Model of an animated directory-tree view: the ordered index of directories,
//! the depth-by-depth reveal animation, the scrolling and selection state over
//! the revealed nodes, and the sorted preview of the selected directory.
//!
//! The library holds no terminal and touches no file system: callers hand it
//! the entries of a walk and the events they read, and paint what it reports.

pub mod animator;
pub mod app;
pub mod path;
pub mod preorder;
pub mod preview;
pub mod render;
pub mod tree;
pub mod viewport;
