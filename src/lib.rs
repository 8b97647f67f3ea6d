//! The tree-construction and reconciliation core of a retained-mode UI
//! framework: a widget tree, the render tree derived from it, the binding
//! between the two, and the keyed repair that keeps them in step when
//! compositions rebuild.

use vstd::prelude::*;

pub mod align;
pub mod animate;
pub mod arena;
pub mod idset;
pub mod relationship;
pub mod reconciler;
pub mod text;
pub mod widget;

verus! {

} // verus!
