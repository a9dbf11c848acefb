//! FocusFlow: reading, checking and writing Hearts of Iron IV focus-tree files.
use vstd::prelude::*;

pub mod text;
pub mod cost;
pub mod model;
pub mod parser;
pub mod writer;
pub mod validate;
pub mod editor;
pub mod roundtrip;
pub mod braces;
pub mod rawblock;
pub mod tokscan;
pub mod shortcutread;

verus! {
}
