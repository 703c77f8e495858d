//! Components that the engine itself knows of.

use vstd::prelude::*;

use crate::error::RenderError;
use crate::key::ComponentKey;
use crate::rsx::RSX;
use crate::traits::Component;

verus! {

pub struct FragmentProps;

/// Groups sibling nodes without a wrapper widget. Mounting hoists a rendered
/// fragment's children into the component that rendered it; a fragment that
/// is mounted itself renders nothing.
pub struct Fragment;

impl Fragment {
    pub fn default_props() -> FragmentProps {
        FragmentProps
    }
}

impl Component for Fragment {
    type Props = FragmentProps;

    type NativeNode = ();

    fn new(_key: ComponentKey, _props: &FragmentProps) -> Fragment {
        Fragment
    }

    fn render(&self, _children: &Vec<RSX<FragmentProps>>) -> Result<RSX<FragmentProps>, RenderError> {
        Ok(RSX::Empty)
    }
}

pub struct GenericRootViewProps;

/// Stands for the synthetic wrapper of a registered root; the engine diffs
/// the wrapper's children directly and never builds one.
pub struct GenericRootView;

impl GenericRootView {
    pub fn get_default_props() -> GenericRootViewProps {
        GenericRootViewProps
    }
}

impl Component for GenericRootView {
    type Props = GenericRootViewProps;

    type NativeNode = ();

    fn new(_key: ComponentKey, _props: &GenericRootViewProps) -> GenericRootView {
        GenericRootView
    }

    fn render(&self, _children: &Vec<RSX<GenericRootViewProps>>) -> Result<RSX<GenericRootViewProps>, RenderError> {
        Ok(RSX::Empty)
    }
}

} // verus!
