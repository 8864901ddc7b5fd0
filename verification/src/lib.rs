//! The verified core of a coding agent's terminal front end: edits anchored on
//! text, patches, syntax outlines, the line editor, and the panels around them.

pub mod hashline;
pub mod render;
pub mod syntax;
pub mod text;
pub mod text_laws;
pub mod tui;
pub mod wechat;
pub mod wechat_laws;
pub mod width;
pub mod worktree;
pub mod worktree_laws;
