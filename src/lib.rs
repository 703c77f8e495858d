//! A retained-mode reconciliation engine: a keyed component arena, a layout
//! tree kept congruent with it, and the diff / mount / unmount passes that
//! move the arena from one rendered tree to the next.
//!
//! Design points:
//! - Keys are (store id, sequence number) pairs and are never reused; stores
//!   take their ids from a shared allocator, so keys of different stores
//!   never collide.
//! - The arena keeps parent and child lists in tables of their own, always
//!   mutual inverses, and records every lifecycle hook it runs. The engine
//!   keeps it a forest: one parent at most, and every child minted after its
//!   parent.
//! - Children are matched by position. A child whose tag changed is
//!   unmounted, and a fresh subtree for the new node is mounted at the same
//!   position in the same pass; reordering is therefore seen as a cascade of
//!   replacements. New layout nodes are linked under the nearest natively
//!   backed ancestor.
//! - Rendered components may nest at most `reconciler::MAX_DEPTH` deep below
//!   one mount; deeper nesting fails with `TreeTooDeep` instead of
//!   recursing without end.
//! - Layout geometry and theme resolution are floating point and live
//!   outside this crate; the engine owns the shape of the layout tree and
//!   hands back, after each pass, the natively backed components in the
//!   order their frames are to be applied.

pub mod key;
pub mod layout_id;
pub mod style_key;
pub mod rsx;
pub mod error;
pub mod layout;
pub mod storage;
pub mod traits;
pub mod reconciler;
pub mod components;

use vstd::prelude::*;

verus! {

} // verus!
