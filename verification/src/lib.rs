//! Draws a directory hierarchy as a tree of text lines, each entry behind
//! the connectors that tie it to its parent and its siblings.
//!
//! - `scan` builds the tree from what a walk of the filesystem reported.
//! - `hidden` says which names are hidden and what a listing without them is.
//! - `node` holds the tree and its model.
//! - `render` turns the tree into lines.
//! - `paths` says on which line each entry is drawn and what that line holds.
//! - `emit` holds the rule for a line that could not be written.

pub mod emit;
pub mod hidden;
pub mod node;
pub mod paths;
pub mod render;
pub mod scan;
