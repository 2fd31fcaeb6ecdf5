//! The engine beneath a retained-mode widget toolkit.
//!
//! It tracks which pieces of state the output of each node depends on,
//! recomputes only what a change has made dirty, and solves a box-model
//! layout for a tree of nodes, with the answers cached per node.
//!
//! Lengths are integers counted in device units, see [`math`]; the
//! dependency graph and the layout tree are arenas whose nodes are named by
//! their index, see [`tracking`] and [`tree`].

pub mod cache;
pub mod element;
pub mod interact;
pub mod layout;
pub mod math;
pub mod style;
pub mod tracking;
pub mod tree;

pub use crate::element::Root;
pub use crate::layout::{Layout, LayoutCharacteristics, PrelayoutInput};
pub use crate::style::{Color, Direction, Justify, LayoutStyle, Sizing};
