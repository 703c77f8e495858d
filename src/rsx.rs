//! The virtual tree that `render` calls produce: short-lived descriptions of
//! what should be mounted, consumed by one diff or mount pass.

use vstd::prelude::*;
use vstd::string::StringExecFns;

use crate::style_key::StyleKey;

verus! {

/// The tag that marks a node whose children are spliced into its parent.
pub const FRAGMENT_TAG: &'static str = "Fragment";

/// The tag of the wrapper that stands for a registered root.
pub const ROOT_TAG: &'static str = "root";

/// Opaque text, handed to the component whose children it is.
#[derive(Clone)]
pub struct VirtualText(pub String);

impl VirtualText {
    pub fn new(s: String) -> (r: VirtualText)
        ensures
            r.0@ == s@,
    {
        VirtualText(s)
    }
}

/// A structural node: a tag, the selectors to style it with, what its
/// component is built from, and its children.
pub struct VirtualNode<P> {
    pub tag: String,
    pub styles: Vec<StyleKey>,
    pub props: P,
    pub children: Vec<RSX<P>>,
}

/// One position of a virtual tree.
pub enum RSX<P> {
    Empty,
    VirtualText(VirtualText),
    VirtualNode(VirtualNode<P>),
}

impl<P> RSX<P> {
    pub fn node(tag: String, styles: Vec<StyleKey>, props: P, children: Vec<RSX<P>>) -> (r: RSX<
        P,
    >)
        ensures
            r matches RSX::VirtualNode(n) && n.tag@ == tag@ && n.styles@ == styles@ && n.props
                == props && n.children@ == children@,
    {
        RSX::VirtualNode(VirtualNode { tag, styles, props, children })
    }

    pub fn text(s: String) -> (r: RSX<P>)
        ensures
            r matches RSX::VirtualText(t) && t.0@ == s@,
    {
        RSX::VirtualText(VirtualText(s))
    }

    /// Is this a structural node tagged as a fragment?
    pub open spec fn is_fragment(&self) -> bool {
        self matches RSX::VirtualNode(n) && n.tag@ == FRAGMENT_TAG@
    }
}

/// The text a component shows for `children`: the texts among them, in
/// order; other positions add nothing.
pub open spec fn text_of<P>(children: Seq<RSX<P>>) -> Seq<char>
    decreases children.len(),
{
    if children.len() == 0 {
        Seq::empty()
    } else {
        text_of(children.drop_last()) + match children.last() {
            RSX::VirtualText(t) => t.0@,
            _ => Seq::empty(),
        }
    }
}

/// Joins the texts among `children`, as a text component renders them.
pub fn text_content<P>(children: &Vec<RSX<P>>) -> (r: String)
    ensures
        r@ == text_of(children@),
{
    let mut r = String::new();
    let mut i: usize = 0;
    while i < children.len()
        invariant
            0 <= i <= children@.len(),
            r@ == text_of(children@.subrange(0, i as int)),
        decreases children@.len() - i,
    {
        assert(children@.subrange(0, i + 1).drop_last() == children@.subrange(0, i as int));
        match &children[i] {
            RSX::VirtualText(t) => r.append(t.0.as_str()),
            _ => {
                assert(r@ + Seq::<char>::empty() == r@);
            },
        }
        i = i + 1;
    }
    assert(children@.subrange(0, children@.len() as int) == children@);
    r
}

/// Compares a tag with the fragment marker.
pub fn is_fragment_tag(tag: &String) -> (r: bool)
    ensures
        r == (tag@ == FRAGMENT_TAG@),
{
    let marker = String::from_str(FRAGMENT_TAG);
    *tag == marker
}

} // verus!
