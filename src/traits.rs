//! The capability set that the engine asks of every component.

use vstd::prelude::*;

use crate::error::RenderError;
use crate::key::ComponentKey;
use crate::rsx::RSX;

verus! {

/// Receives application-level events from the platform's run loop.
pub trait AppDelegate {
    /// The application is about to finish launching.
    fn will_finish_launching(&mut self) {
    }

    /// The application has finished launching.
    fn did_finish_launching(&mut self) {
    }

    /// The application is about to become active.
    fn will_become_active(&mut self) {
    }

    /// The application became active.
    fn did_become_active(&mut self) {
    }

    /// The application is about to resign being active.
    fn will_resign_active(&mut self) {
    }

    /// The application resigned being active.
    fn did_resign_active(&mut self) {
    }

    /// May the application terminate now?
    fn should_terminate(&self) -> bool {
        true
    }

    /// The application is about to terminate.
    fn will_terminate(&mut self) {
    }

    /// A window with this id is about to close.
    fn _window_will_close(&self, _window_id: usize) {
    }
}

/// Marks a component's state type.
pub trait State {}

/// A component's behaviour, as the reconciler sees it. `Props` is what a
/// virtual node carries for building the component; `NativeNode` is the
/// platform widget handle that natively backed components hand out.
pub trait Component: Sized {
    type Props;

    type NativeNode;

    /// Builds the component for a freshly minted key; called only when the
    /// node is actually mounted.
    fn new(key: ComponentKey, props: &Self::Props) -> Self;

    /// Does this component own a platform widget (and so a layout node)?
    fn has_native_backing_node(&self) -> bool {
        false
    }

    /// The platform widget, for natively backed components.
    fn borrow_native_backing_node(&self) -> Option<Self::NativeNode> {
        None
    }

    /// Attaches a child's platform widget under this component's widget.
    fn append_child_node(&self, _node: Self::NativeNode) {
    }

    /// What this component shows for the given children.
    fn render(&self, children: &Vec<RSX<Self::Props>>) -> Result<RSX<Self::Props>, RenderError>;

    /// Called once the component's whole subtree is mounted.
    fn component_did_mount(&mut self) {
    }

    /// Called while the component is still in the arena, after its whole
    /// subtree has been unmounted.
    fn component_will_unmount(&mut self) {
    }
}

} // verus!
