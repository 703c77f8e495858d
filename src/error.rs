//! Errors that a diff, mount or layout pass can end with.

use vstd::prelude::*;

use crate::key::ComponentKey;
use crate::layout::Error as LayoutError;

verus! {

/// Why a pass over the component arena or the layout tree stopped.
#[derive(Clone, Copy, Debug, PartialEq, Eq, Structural)]
pub enum RenderEngineError {
    /// A key was passed that the engine cannot use.
    InvalidKey,
    /// A root must be backed by a native node.
    InvalidRootComponent,
    /// The key is not bound in the component arena.
    InvalidComponentKey(ComponentKey),
    /// The layout tree refused an operation.
    Layout(LayoutError),
    /// An arena or a layout tree has handed out every sequence number it has.
    KeysExhausted,
    /// Rendered components nest deeper than the engine follows.
    TreeTooDeep,
}

impl RenderEngineError {
    /// A one-line description of the error.
    pub fn message(&self) -> (r: String)
        ensures
            *self is InvalidKey ==> r@ == "An invalid key was passed to the render engine."@,
            *self is InvalidRootComponent ==> r@ == "Invalid component type! Root nodes must be a natively backed node."@,
            *self is InvalidComponentKey ==> r@ == "Invalid component key"@,
            *self is Layout ==> r@ == "The layout tree refused an operation."@,
            *self is KeysExhausted ==> r@ == "No sequence numbers are left to allocate."@,
            *self is TreeTooDeep ==> r@ == "Rendered components nest too deeply."@,
            r@.len() > 0,
    {
        let s = match self {
            RenderEngineError::InvalidKey => "An invalid key was passed to the render engine.",
            RenderEngineError::InvalidRootComponent =>
                "Invalid component type! Root nodes must be a natively backed node.",
            RenderEngineError::InvalidComponentKey(_) => "Invalid component key",
            RenderEngineError::Layout(_) => "The layout tree refused an operation.",
            RenderEngineError::KeysExhausted => "No sequence numbers are left to allocate.",
            RenderEngineError::TreeTooDeep => "Rendered components nest too deeply.",
        };
        proof {
            reveal_strlit("An invalid key was passed to the render engine.");
            reveal_strlit("Invalid component type! Root nodes must be a natively backed node.");
            reveal_strlit("Invalid component key");
            reveal_strlit("The layout tree refused an operation.");
            reveal_strlit("No sequence numbers are left to allocate.");
            reveal_strlit("Rendered components nest too deeply.");
        }
        String::from_str(s)
    }
}

/// What a component's `render` reports when it cannot produce output.
pub struct RenderError {
    pub message: String,
}

} // verus!
