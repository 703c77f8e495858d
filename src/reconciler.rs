//! The render engine: registers roots, and diffs each freshly rendered tree
//! against the instances already mounted, mounting, updating and unmounting
//! in place while keeping the layout tree congruent.

use vstd::prelude::*;

use crate::error::{RenderEngineError, RenderError};
use crate::key::{Allocator as KeyAllocator, ComponentKey};
use crate::layout::{LayoutNode, LayoutStore};
use crate::layout_id::Allocator as LayoutAllocator;
use crate::rsx::{is_fragment_tag, VirtualNode, FRAGMENT_TAG, RSX, ROOT_TAG};
use crate::storage::{Hook, lemma_without_len, lemma_without_no_duplicates, without, ComponentStore, Instance};
use crate::style_key::StyleKey;
use crate::traits::Component;

verus! {

/// How deep rendered components may nest below one mount call.
pub const MAX_DEPTH: usize = 512;


/// Copies a list of style keys.
fn copy_styles(v: &Vec<StyleKey>) -> (r: Vec<StyleKey>)
    ensures
        r@.len() == v@.len(),
        forall|i: int| 0 <= i < v@.len() ==> r@[i]@ == v@[i]@,
{
    let mut r: Vec<StyleKey> = Vec::new();
    let mut i: usize = 0;
    while i < v.len()
        invariant
            0 <= i <= v@.len(),
            r@.len() == i,
            forall|j: int| 0 <= j < i ==> r@[j]@ == v@[j]@,
        decreases v@.len() - i,
    {
        r.push(v[i].copy());
        i = i + 1;
    }
    r
}

/// Does the subtree at `key` already have the shape `tree` describes, so
/// that diffing it against `tree` changes nothing? A structural node matches
/// when its children match position by position; text or an empty position
/// matches a component with no children.
pub open spec fn tree_matches<C, P>(s: ComponentStore<C>, key: ComponentKey, tree: RSX<P>) -> bool
    decreases tree,
{
    match tree {
        RSX::VirtualNode(n) => children_match(s, s.children_of(key), n.children@),
        _ => s.children_of(key).len() == 0,
    }
}

/// Do the live keys `olds` match the new children `news` position by
/// position: same tags, matching subtrees, and no structural node past the
/// end of `olds`?
pub open spec fn children_match<C, P>(s: ComponentStore<C>, olds: Seq<ComponentKey>, news: Seq<RSX<P>>) -> bool
    decreases news,
{
    &&& olds.len() <= news.len()
    &&& forall|i: int| 0 <= i < olds.len() ==> {
        &&& s.contains(#[trigger] olds[i])
        &&& (news[i] is VirtualNode ==> s.instance(olds[i]).tag@ == news[i]->VirtualNode_0.tag@)
        &&& tree_matches(s, olds[i], news[i])
    }
    &&& forall|i: int| olds.len() <= i < news.len() ==> !(#[trigger] news[i] is VirtualNode)
}

/// The children of the synthetic root wrapper for a rendered subtree: a
/// fragment's children directly, any other node alone, nothing for text or
/// an empty render.
pub open spec fn hoisted_children<P>(child: RSX<P>) -> Seq<RSX<P>> {
    match child {
        RSX::VirtualNode(n) => if n.tag@ == FRAGMENT_TAG@ {
            n.children@
        } else {
            seq![child]
        },
        _ => Seq::empty(),
    }
}

/// Fragment hoisting: a root-level fragment with children `xs` hands the
/// root exactly `xs`, the same children as a render whose nodes stand
/// directly under the wrapper; the fragment itself is never among them.
pub proof fn lemma_fragment_hoisting<P>(n: VirtualNode<P>)
    requires
        n.tag@ == FRAGMENT_TAG@,
    ensures
        hoisted_children(RSX::VirtualNode(n)) == n.children@,
{
}

/// Builds the children of the synthetic root wrapper for `child`.
pub fn root_children<P>(child: RSX<P>) -> (r: Vec<RSX<P>>)
    ensures
        r@ == hoisted_children(child),
{
    match child {
        RSX::VirtualNode(node) => {
            if is_fragment_tag(&node.tag) {
                node.children
            } else {
                let mut v: Vec<RSX<P>> = Vec::new();
                v.push(RSX::VirtualNode(node));
                assert(v@ =~= seq![child]);
                v
            }
        },
        _ => Vec::new(),
    }
}

/// Does `d` lie below `a`, at most `n` child links down, in `s`?
pub open spec fn below<C>(s: ComponentStore<C>, a: ComponentKey, d: ComponentKey, n: nat) -> bool
    decreases n,
{
    if n == 0 {
        false
    } else {
        exists|c: ComponentKey| #[trigger] s.children_of(a).contains(c) && (c == d || below(s, c, d, (n - 1) as nat))
    }
}

/// Did the hooks `h[from..to]` include the mount hook of `k`?
pub open spec fn mount_fired(h: Seq<Hook>, from: int, to: int, k: ComponentKey) -> bool {
    exists|m: int| from <= m < to && h[m] == Hook::DidMount(k)
}

/// What lies below `a` in `s2` lay below it in `s1` already, when no list
/// from `a` on changed.
proof fn lemma_below_frame<C>(s1: ComponentStore<C>, s2: ComponentStore<C>, a: ComponentKey, d: ComponentKey, n: nat)
    requires
        s1.wf(),
        s1.ordered(),
        s1.contains(a),
        forall|k: ComponentKey| #[trigger] s1.contains(k) && a.local.id <= k.local.id ==> s2.children_of(k) == s1.children_of(k),
    ensures
        below(s2, a, d, n) ==> below(s1, a, d, n),
    decreases n,
{
    if n > 0 && below(s2, a, d, n) {
        let c = choose|c: ComponentKey| #[trigger] s2.children_of(a).contains(c) && (c == d || below(s2, c, d, (n - 1) as nat));
        assert(s1.contains(a) && a.local.id <= a.local.id);
        assert(s1.children_of(a).contains(c));
        s1.lemma_child_of_live(a, c);
        if c != d {
            assert forall|k: ComponentKey| #[trigger] s1.contains(k) && c.local.id <= k.local.id implies s2.children_of(k) == s1.children_of(k) by {
                assert(s1.contains(k) && a.local.id <= k.local.id);
            }
            lemma_below_frame(s1, s2, c, d, (n - 1) as nat);
        }
    }
}

/// Are the hooks `h[from..to]` all mount hooks, of keys numbered `next` or later?
pub open spec fn mounts_only(h: Seq<Hook>, from: int, to: int, next: nat) -> bool {
    forall|m: int| from <= m < to ==> (#[trigger] h[m] is DidMount && next <= h[m]->DidMount_0.local.id)
}

proof fn lemma_mounts_only_join(h1: Seq<Hook>, h2: Seq<Hook>, from: int, mid: int, to: int, n1: nat, n2: nat)
    requires
        mounts_only(h1, from, mid, n1),
        mid <= h1.len(),
        0 <= from,
        h2.len() >= h1.len(),
        h2.subrange(0, h1.len() as int) == h1,
        mounts_only(h2, mid, to, n2),
        n1 <= n2,
    ensures
        mounts_only(h2, from, to, n1),
{
    assert forall|m: int| from <= m < to implies (#[trigger] h2[m] is DidMount && n1 <= h2[m]->DidMount_0.local.id) by {
        if m < mid {
            assert(h2.subrange(0, h1.len() as int)[m] == h2[m]);
        }
    }
}

/// Did the hooks `h[from..to]` include the unmount hook of `k`?
pub open spec fn unmount_fired(h: Seq<Hook>, from: int, to: int, k: ComponentKey) -> bool {
    exists|m: int| from <= m < to && h[m] == Hook::WillUnmount(k)
}

proof fn lemma_unmount_fired_grows(h1: Seq<Hook>, h2: Seq<Hook>, from: int, to: int, k: ComponentKey)
    requires
        unmount_fired(h1, from, to, k),
        0 <= from,
        to <= h1.len(),
        h2.len() >= h1.len(),
        h2.subrange(0, h1.len() as int) == h1,
    ensures
        unmount_fired(h2, from, h2.len() as int, k),
{
    let m = choose|m: int| from <= m < to && h1[m] == Hook::WillUnmount(k);
    assert(h2.subrange(0, h1.len() as int)[m] == h2[m]);
}

/// What lies below `a` in `s2` lies below it in `s1` too, when every list
/// from `a` on that `s2` holds is the same in `s1`.
proof fn lemma_below_carry<C>(s1: ComponentStore<C>, s2: ComponentStore<C>, a: ComponentKey, d: ComponentKey, n: nat)
    requires
        s2.wf(),
        s2.ordered(),
        s2.contains(a),
        forall|k: ComponentKey, x: ComponentKey| s2.contains(k) && a.local.id <= k.local.id
            && #[trigger] s2.children_of(k).contains(x) ==> s1.children_of(k).contains(x),
    ensures
        below(s2, a, d, n) ==> below(s1, a, d, n),
    decreases n,
{
    if n > 0 && below(s2, a, d, n) {
        let c = choose|c: ComponentKey| #[trigger] s2.children_of(a).contains(c) && (c == d || below(s2, c, d, (n - 1) as nat));
        assert(s2.contains(a) && a.local.id <= a.local.id && s2.children_of(a).contains(c));
        assert(s1.children_of(a).contains(c));
        s2.lemma_child_of_live(a, c);
        if c != d {
            lemma_below_carry(s1, s2, c, d, (n - 1) as nat);
        }
    }
}

proof fn lemma_fired_grows(h1: Seq<Hook>, h2: Seq<Hook>, from: int, to: int, k: ComponentKey)
    requires
        mount_fired(h1, from, to, k),
        0 <= from,
        to <= h1.len(),
        h2.len() >= h1.len(),
        h2.subrange(0, h1.len() as int) == h1,
    ensures
        mount_fired(h2, from, h2.len() as int, k),
{
    let m = choose|m: int| from <= m < to && h1[m] == Hook::DidMount(k);
    assert(h2.subrange(0, h1.len() as int)[m] == h2[m]);
}

/// Is `e` one of the errors that only exhausted capacity causes: no
/// sequence numbers left, or rendered components nesting too deeply?
pub open spec fn capacity_error(e: RenderEngineError) -> bool {
    e == RenderEngineError::TreeTooDeep || e == RenderEngineError::KeysExhausted
}

/// Is no position of `s` a structural node?
pub open spec fn no_nodes<P>(s: Seq<RSX<P>>) -> bool {
    forall|i: int| 0 <= i < s.len() ==> !(#[trigger] s[i] is VirtualNode)
}

/// The tags of the structural nodes of `s`, in order.
pub open spec fn node_tags<P>(s: Seq<RSX<P>>) -> Seq<Seq<char>>
    decreases s.len(),
{
    if s.len() == 0 {
        Seq::empty()
    } else {
        node_tags(s.drop_last()) + match s.last() {
            RSX::VirtualNode(n) => seq![n.tag@],
            _ => Seq::empty(),
        }
    }
}

/// What a component's render hands on to be mounted under it: the hoisted
/// children of a successful render, nothing for a failed one.
pub open spec fn rendered_children<P>(rendered: Result<RSX<P>, RenderError>) -> Seq<RSX<P>> {
    match rendered {
        Ok(x) => hoisted_children(x),
        Err(_) => Seq::empty(),
    }
}

/// The natively backed components at or below `k` with their layout
/// nodes, depth first, each component before its children, children in order.
pub open spec fn styled_preorder<C>(s: ComponentStore<C>, k: ComponentKey) -> Seq<(ComponentKey, LayoutNode)>
    decreases s.next() - k.local.id, 1int, 0int,
{
    (if s.contains(k) && s.instance(k).layout is Some {
        seq![(k, s.instance(k).layout->Some_0)]
    } else {
        Seq::empty()
    }) + styled_children(s, k, s.children_of(k))
}

/// `styled_preorder` of each of `ks`, the children of `k`, one after another.
pub open spec fn styled_children<C>(s: ComponentStore<C>, k: ComponentKey, ks: Seq<ComponentKey>) -> Seq<(ComponentKey, LayoutNode)>
    decreases s.next() - k.local.id, 0int, ks.len(),
{
    if ks.len() == 0 {
        Seq::empty()
    } else {
        styled_children(s, k, ks.drop_last()) + if k.local.id < ks.last().local.id && ks.last().local.id < s.next() {
            styled_preorder(s, ks.last())
        } else {
            Seq::empty()
        }
    }
}

/// The layout nodes that `k`'s subtree contributes under the nearest
/// natively backed ancestor: `k`'s own, or, for a component without one,
/// those of its children in order.
pub open spec fn native_tops<C>(s: ComponentStore<C>, k: ComponentKey) -> Seq<LayoutNode>
    decreases s.next() - k.local.id, 1int, 0int,
{
    if s.contains(k) && s.instance(k).layout is Some {
        seq![s.instance(k).layout->Some_0]
    } else {
        native_tops_of(s, k, s.children_of(k))
    }
}

/// `native_tops` of each of `ks`, the children of `k`, one after another.
pub open spec fn native_tops_of<C>(s: ComponentStore<C>, k: ComponentKey, ks: Seq<ComponentKey>) -> Seq<LayoutNode>
    decreases s.next() - k.local.id, 0int, ks.len(),
{
    if ks.len() == 0 {
        Seq::empty()
    } else {
        native_tops_of(s, k, ks.drop_last()) + if k.local.id < ks.last().local.id && ks.last().local.id < s.next() {
            native_tops(s, ks.last())
        } else {
            Seq::empty()
        }
    }
}

/// `native_tops` reads only what lies at or below `k`, so it is the same in
/// two stores that agree there.
proof fn lemma_tops_frame<C>(s1: ComponentStore<C>, s2: ComponentStore<C>, k: ComponentKey)
    requires
        s2.wf(),
        s2.ordered(),
        s2.contains(k),
        s1.next() == s2.next(),
        forall|x: ComponentKey| #[trigger] s2.contains(x) && k.local.id <= x.local.id ==> {
            &&& s1.contains(x)
            &&& s1.instance(x).layout == s2.instance(x).layout
            &&& s1.children_of(x) == s2.children_of(x)
        },
    ensures
        native_tops(s2, k) == native_tops(s1, k),
    decreases s2.next() - k.local.id, 1int, 0int,
{
    assert(s2.contains(k) && k.local.id <= k.local.id);
    if s2.instance(k).layout is None {
        lemma_tops_of_frame(s1, s2, k, s2.children_of(k));
    }
}

proof fn lemma_tops_of_frame<C>(s1: ComponentStore<C>, s2: ComponentStore<C>, k: ComponentKey, ks: Seq<ComponentKey>)
    requires
        s2.wf(),
        s2.ordered(),
        s2.contains(k),
        s1.next() == s2.next(),
        forall|x: ComponentKey| #[trigger] ks.contains(x) ==> s2.children_of(k).contains(x),
        forall|x: ComponentKey| #[trigger] s2.contains(x) && k.local.id <= x.local.id ==> {
            &&& s1.contains(x)
            &&& s1.instance(x).layout == s2.instance(x).layout
            &&& s1.children_of(x) == s2.children_of(x)
        },
    ensures
        native_tops_of(s2, k, ks) == native_tops_of(s1, k, ks),
    decreases s2.next() - k.local.id, 0int, ks.len(),
{
    if ks.len() > 0 {
        let d = ks.drop_last();
        assert forall|x: ComponentKey| #[trigger] d.contains(x) implies s2.children_of(k).contains(x) by {
            let j = choose|j: int| 0 <= j < d.len() && d[j] == x;
            assert(ks[j] == x);
            assert(ks.contains(x));
        }
        lemma_tops_of_frame(s1, s2, k, d);
        let c = ks.last();
        assert(ks.contains(c)) by { assert(ks[ks.len() - 1] == c); }
        s2.lemma_child_of_live(k, c);
        if k.local.id < c.local.id && c.local.id < s2.next() {
            assert forall|x: ComponentKey| #[trigger] s2.contains(x) && c.local.id <= x.local.id implies {
                &&& s1.contains(x)
                &&& s1.instance(x).layout == s2.instance(x).layout
                &&& s1.children_of(x) == s2.children_of(x)
            } by {
                assert(s2.contains(x) && k.local.id <= x.local.id);
            }
            lemma_tops_frame(s1, s2, c);
        }
    }
}

/// Is every position of `s` a structural node?
pub open spec fn all_nodes<P>(s: Seq<RSX<P>>) -> bool {
    forall|i: int| 0 <= i < s.len() ==> #[trigger] s[i] is VirtualNode
}

/// The elements of `s` from position `i` on (none when `i` is past the end).
pub open spec fn suffix<K>(s: Seq<K>, i: int) -> Seq<K> {
    if 0 <= i < s.len() {
        s.subrange(i, s.len() as int)
    } else {
        Seq::empty()
    }
}

proof fn lemma_suffix_step<K>(s: Seq<K>, i: int)
    requires
        0 <= i < s.len(),
    ensures
        suffix(s, i) == seq![s[i]] + suffix(s, i + 1),
{
    assert(suffix(s, i) =~= seq![s[i]] + suffix(s, i + 1));
}

proof fn lemma_suffix_subset<K>(s: Seq<K>, i: int)
    requires
        0 <= i,
    ensures
        forall|x: K| #[trigger] suffix(s, i + 1).contains(x) ==> suffix(s, i).contains(x),
{
    assert forall|x: K| #[trigger] suffix(s, i + 1).contains(x) implies suffix(s, i).contains(x) by {
        let t = suffix(s, i + 1);
        let m = choose|m: int| 0 <= m < t.len() && t[m] == x;
        assert(suffix(s, i)[m + 1] == x);
    }
}

proof fn lemma_no_dup_suffix<K>(s: Seq<K>, i: int)
    requires
        s.no_duplicates(),
        0 <= i < s.len(),
    ensures
        !suffix(s, i + 1).contains(s[i]),
{
    if suffix(s, i + 1).contains(s[i]) {
        let t = suffix(s, i + 1);
        let m = choose|m: int| 0 <= m < t.len() && t[m] == s[i];
        assert(s[i + 1 + m] == s[i]);
    }
}

proof fn lemma_layouts_grow(a: LayoutStore, b: LayoutStore, c: LayoutStore)
    requires
        forall|n: LayoutNode| #[trigger] a.contains(n) ==> b.contains(n),
        forall|n: LayoutNode| #[trigger] b.contains(n) ==> c.contains(n),
    ensures
        forall|n: LayoutNode| #[trigger] a.contains(n) ==> c.contains(n),
{
}

proof fn lemma_prefix_chain(a: Seq<Hook>, b: Seq<Hook>, c: Seq<Hook>)
    requires
        b.len() >= a.len(),
        b.subrange(0, a.len() as int) == a,
        c.len() >= b.len(),
        c.subrange(0, b.len() as int) == b,
    ensures
        c.subrange(0, a.len() as int) == a,
{
    assert(c.subrange(0, a.len() as int) =~= c.subrange(0, b.len() as int).subrange(0, a.len() as int));
}

/// Owns the component arena and the layout tree of every root registered with it.
pub struct RenderEngine<C: Component> {
    components: ComponentStore<C>,
    layouts: LayoutStore,
    hooks: Ghost<Seq<Hook>>,
}

impl<C: Component> RenderEngine<C> {
    pub closed spec fn store(&self) -> ComponentStore<C> {
        self.components
    }

    pub closed spec fn layout_tree(&self) -> LayoutStore {
        self.layouts
    }

    /// No more keys can be minted, or no more layout nodes created.
    pub open spec fn exhausted(&self) -> bool {
        !self.store().can_mint() || !self.layout_tree().can_allocate()
    }

    /// The layout node of `k`, when `k` is live and natively backed.
    pub open spec fn layout_handle(&self, k: ComponentKey) -> Option<LayoutNode> {
        if self.store().contains(k) {
            self.store().instance(k).layout
        } else {
            None
        }
    }

    /// Every hook fired so far, oldest first.
    pub closed spec fn hooks(&self) -> Seq<Hook> {
        self.hooks@
    }

    /// Both stores are well formed, every layout handle held by a live
    /// instance is a node of the layout tree, and layout nodes were created
    /// in the order their components were minted.
    pub closed spec fn wf(&self) -> bool {
        &&& self.components.wf()
        &&& self.components.ordered()
        &&& self.hooks@ == self.components.hooks()
        &&& self.forest()
        &&& self.layouts.wf()
        &&& forall|k: ComponentKey|
            #[trigger] self.components.contains(k) && self.components.instance(k).layout is Some
                ==> self.layouts.contains(self.components.instance(k).layout->Some_0)
        &&& forall|a: ComponentKey, b: ComponentKey|
            #![trigger self.components.instance(a), self.components.instance(b)]
            self.components.contains(a) && self.components.contains(b) && a.local.id < b.local.id
                && self.components.instance(a).layout is Some && self.components.instance(b).layout is Some
                ==> self.components.instance(a).layout->Some_0.local.id < self.components.instance(b).layout->Some_0.local.id
    }

    /// A well-formed engine holds a well-formed arena and layout tree, so
    /// the arena's laws (such as adjacency symmetry) hold after every pass;
    /// its hook log is the arena's.
    pub proof fn lemma_store_wf(&self)
        requires
            self.wf(),
        ensures
            self.store().wf(),
            self.store().ordered(),
            self.layout_tree().wf(),
            self.hooks() == self.store().hooks(),
    {
    }

    /// Every live instance has at most one parent and no repeated child:
    /// the arena holds a forest.
    pub closed spec fn forest(&self) -> bool {
        forall|k: ComponentKey| #[trigger] self.components.contains(k) ==> {
            &&& self.components.parents_of(k).len() <= 1
            &&& self.components.children_of(k).no_duplicates()
        }
    }

    /// The forest survives a step that keeps the lists of every old key,
    /// and binds at most one new key, with empty lists.
    proof fn lemma_forest_grow(&self, old: &Self, key: ComponentKey)
        requires
            old.forest(),
            forall|k: ComponentKey| #[trigger] self.components.contains(k) && k != key ==> {
                &&& old.components.contains(k)
                &&& self.components.parents_of(k) == old.components.parents_of(k)
                &&& self.components.children_of(k) == old.components.children_of(k)
            },
            self.components.contains(key) ==> (self.components.parents_of(key).len() == 0
                && self.components.children_of(key).len() == 0) || (old.components.contains(key)
                && self.components.parents_of(key) == old.components.parents_of(key)
                && self.components.children_of(key) == old.components.children_of(key)),
        ensures
            self.forest(),
    {
        assert forall|k: ComponentKey| #[trigger] self.components.contains(k) implies {
            &&& self.components.parents_of(k).len() <= 1
            &&& self.components.children_of(k).no_duplicates()
        } by {
            if k != key {
                assert(old.components.contains(k));
            }
        }
    }

    /// The forest survives linking `child`, which had no parent, under `parent`.
    proof fn lemma_forest_link(&self, old: &Self, parent: ComponentKey, child: ComponentKey, at: int)
        requires
            old.wf(),
            old.components.contains(parent),
            old.components.contains(child),
            old.components.parents_of(child).len() == 0,
            0 <= at <= old.components.children_of(parent).len(),
            forall|k: ComponentKey| #[trigger] self.components.contains(k) <==> old.components.contains(k),
            self.components.children_of(parent) == old.components.children_of(parent).insert(at, child),
            self.components.parents_of(child) == old.components.parents_of(child).push(parent),
            forall|k: ComponentKey| old.components.contains(k) && k != parent ==> #[trigger] self.components.children_of(k) == old.components.children_of(k),
            forall|k: ComponentKey| old.components.contains(k) && k != child ==> #[trigger] self.components.parents_of(k) == old.components.parents_of(k),
        ensures
            self.forest(),
    {
        let oc = old.components.children_of(parent);
        assert(!oc.contains(child)) by {
            if oc.contains(child) {
                old.components.lemma_child_of_live(parent, child);
            }
        }
        let nc = oc.insert(at, child);
        assert(nc.no_duplicates()) by {
            assert(oc.no_duplicates());
            assert forall|i: int, j: int| 0 <= i < nc.len() && 0 <= j < nc.len() && i != j implies nc[i] != nc[j] by {
                if i == at {
                    if j < at { assert(nc[j] == oc[j]); } else { assert(nc[j] == oc[j - 1]); }
                } else if j == at {
                    if i < at { assert(nc[i] == oc[i]); } else { assert(nc[i] == oc[i - 1]); }
                } else {
                    let oi = if i < at { i } else { i - 1 };
                    let oj = if j < at { j } else { j - 1 };
                    assert(nc[i] == oc[oi]);
                    assert(nc[j] == oc[oj]);
                }
            }
        }
        assert forall|k: ComponentKey| #[trigger] self.components.contains(k) implies {
            &&& self.components.parents_of(k).len() <= 1
            &&& self.components.children_of(k).no_duplicates()
        } by {
            assert(old.components.contains(k));
            if k != parent {
                assert(self.components.children_of(k) == old.components.children_of(k));
            }
            if k != child {
                assert(self.components.parents_of(k) == old.components.parents_of(k));
            }
        }
    }

    /// The forest survives the removal of `x` from the arena and from every list.
    proof fn lemma_forest_remove(&self, old: &Self, x: ComponentKey)
        requires
            old.forest(),
            forall|k: ComponentKey| #[trigger] self.components.contains(k) ==> {
                &&& old.components.contains(k)
                &&& self.components.parents_of(k) == without(old.components.parents_of(k), x)
                &&& self.components.children_of(k) == without(old.components.children_of(k), x)
            },
        ensures
            self.forest(),
    {
        assert forall|k: ComponentKey| #[trigger] self.components.contains(k) implies {
            &&& self.components.parents_of(k).len() <= 1
            &&& self.components.children_of(k).no_duplicates()
        } by {
            assert(old.components.contains(k));
            lemma_without_len(old.components.parents_of(k), x);
            lemma_without_no_duplicates(old.components.children_of(k), x);
        }
    }

    /// What `wf` needs of a step that removes instances, keeps the layout
    /// handles of the rest, and keeps every layout node.
    proof fn lemma_frame(&self, old: &Self)
        requires
            old.wf(),
            self.components.wf(),
            self.components.ordered(),
            self.hooks@ == self.components.hooks(),
            self.forest(),
            self.layouts.wf(),
            forall|k: ComponentKey| #[trigger] self.components.contains(k) ==> old.components.contains(k)
                && self.components.instance(k).layout == old.components.instance(k).layout,
            forall|n: LayoutNode| #[trigger] old.layouts.contains(n) ==> self.layouts.contains(n),
        ensures
            self.wf(),
    {
        assert forall|a: ComponentKey, b: ComponentKey|
            #![trigger self.components.instance(a), self.components.instance(b)]
            self.components.contains(a) && self.components.contains(b) && a.local.id < b.local.id
                && self.components.instance(a).layout is Some && self.components.instance(b).layout is Some
                implies self.components.instance(a).layout->Some_0.local.id < self.components.instance(b).layout->Some_0.local.id by {
            assert(old.components.contains(a));
            assert(old.components.contains(b));
            assert(old.components.instance(a).layout == self.components.instance(a).layout);
            assert(old.components.instance(b).layout == self.components.instance(b).layout);
        }
        assert forall|k: ComponentKey|
            #[trigger] self.components.contains(k) && self.components.instance(k).layout is Some
                implies self.layouts.contains(self.components.instance(k).layout->Some_0) by {
            assert(old.components.contains(k));
        }
    }

    /// An engine with no roots; its arena and layout tree take their ids
    /// from the given allocators.
    pub fn new(instances: &mut KeyAllocator, layout_instances: &mut LayoutAllocator) -> (r: RenderEngine<C>)
        requires
            old(instances).can_allocate(),
            old(layout_instances).can_allocate(),
        ensures
            r.wf(),
            r.hooks().len() == 0,
            r.store().store_id().id == old(instances).next(),
            forall|k: ComponentKey| !r.store().contains(k),
    {
        let components = ComponentStore::new(instances);
        let layouts = LayoutStore::new(layout_instances);
        RenderEngine { components, layouts, hooks: Ghost(components.hooks()) }
    }

    /// Registers `component` as a root, asking the component whether it is
    /// natively backed; see `register_root`.
    pub fn register_root_component(&mut self, component: C) -> (r: Result<ComponentKey, RenderEngineError>)
        requires
            old(self).wf(),
        ensures
            final(self).wf(),
            final(self).hooks() == old(self).hooks(),
            r is Err ==> r == Err::<ComponentKey, RenderEngineError>(RenderEngineError::InvalidRootComponent)
                || r == Err::<ComponentKey, RenderEngineError>(RenderEngineError::KeysExhausted),
            r is Err ==> *final(self) == *old(self),
            r is Ok ==> {
                let k = r->Ok_0;
                &&& !old(self).store().minted(k)
                &&& final(self).store().minted(k)
                &&& final(self).store().contains(k)
                &&& final(self).store().instance(k).tag@ == ROOT_TAG@
                &&& final(self).store().instance(k).layout is Some
                &&& final(self).store().children_of(k).len() == 0
                &&& final(self).store().others_unchanged(&old(self).store(), k)
            },
    {
        let natively_backed = component.has_native_backing_node();
        self.register_root(component, natively_backed)
    }

    /// Binds `component` under the tag `root` with a fresh key and a fresh
    /// layout node, when `natively_backed` holds; a root with nothing for
    /// layout and paint to attach to is refused.
    pub fn register_root(&mut self, component: C, natively_backed: bool) -> (r: Result<ComponentKey, RenderEngineError>)
        requires
            old(self).wf(),
        ensures
            final(self).wf(),
            final(self).hooks() == old(self).hooks(),
            !natively_backed ==> r == Err::<ComponentKey, RenderEngineError>(RenderEngineError::InvalidRootComponent),
            natively_backed && !(old(self).store().can_mint() && old(self).layout_tree().can_allocate())
                ==> r == Err::<ComponentKey, RenderEngineError>(RenderEngineError::KeysExhausted),
            natively_backed && old(self).store().can_mint() && old(self).layout_tree().can_allocate() ==> r is Ok,
            r is Err ==> *final(self) == *old(self),
            r is Ok ==> {
                let k = r->Ok_0;
                &&& !old(self).store().minted(k)
                &&& final(self).store().minted(k)
                &&& final(self).store().contains(k)
                &&& final(self).store().instance(k).tag@ == ROOT_TAG@
                &&& final(self).store().instance(k).component == component
                &&& final(self).store().instance(k).layout is Some
                &&& !old(self).layout_tree().contains(final(self).store().instance(k).layout->Some_0)
                &&& final(self).layout_tree().contains(final(self).store().instance(k).layout->Some_0)
                &&& final(self).layout_tree().children_of(final(self).store().instance(k).layout->Some_0).len() == 0
                &&& final(self).store().children_of(k).len() == 0
                &&& final(self).store().parents_of(k).len() == 0
                &&& final(self).store().instance(k).style_keys@.len() == 1
                &&& final(self).store().instance(k).style_keys@[0]@ == "root"@
                &&& final(self).store().others_unchanged(&old(self).store(), k)
            },
    {
        if !natively_backed {
            return Err(RenderEngineError::InvalidRootComponent);
        }
        if !self.components.has_capacity() || !self.layouts.has_capacity() {
            return Err(RenderEngineError::KeysExhausted);
        }
        let ghost old_self = *self;
        let layout = self.layouts.new_node();
        let key = self.components.new_key();
        let mut style_keys: Vec<StyleKey> = Vec::new();
        style_keys.push(StyleKey::root());
        let _ = self.components.insert(
            key,
            Instance { tag: String::from_str(ROOT_TAG), style_keys, component, layout: Some(layout) },
        );
        proof {
            assert forall|a: ComponentKey, b: ComponentKey|
                #![trigger self.components.instance(a), self.components.instance(b)]
                self.components.contains(a) && self.components.contains(b) && a.local.id < b.local.id
                    && self.components.instance(a).layout is Some && self.components.instance(b).layout is Some
                    implies self.components.instance(a).layout->Some_0.local.id < self.components.instance(b).layout->Some_0.local.id by {
                if b == key {
                    assert(old_self.components.contains(a));
                    old_self.layouts.lemma_contains_below_next(old_self.components.instance(a).layout->Some_0);
                } else if a == key {
                    assert(old_self.components.contains(b));
                    old_self.components.lemma_live_was_minted(b);
                } else {
                    assert(old_self.components.contains(a));
                    assert(old_self.components.contains(b));
                }
            }
            assert forall|k: ComponentKey|
                #[trigger] self.components.contains(k) && self.components.instance(k).layout is Some
                    implies self.layouts.contains(self.components.instance(k).layout->Some_0) by {
                if k != key {
                    assert(old_self.components.contains(k));
                }
            }
        }
        Ok(key)
    }

    /// Diffs a freshly rendered subtree into the root registered at `key`.
    /// The root itself is never replaced; its children are diffed against
    /// `hoisted_children(child)`. Returns, in depth-first pre-order, every
    /// component of the root's tree that has a layout node, for the layout
    /// and style pass that follows.
    pub fn diff_and_render_root(&mut self, key: ComponentKey, child: RSX<C::Props>) -> (r: Result<Vec<(ComponentKey, LayoutNode)>, RenderEngineError>)
        requires
            old(self).wf(),
        ensures
            final(self).wf(),
            final(self).store().store_id() == old(self).store().store_id(),
            final(self).store().next() >= old(self).store().next(),
            forall|k: ComponentKey| #[trigger] final(self).store().contains(k) && !old(self).store().contains(k)
                ==> !old(self).store().minted(k),
            final(self).hooks().len() >= old(self).hooks().len(),
            final(self).hooks().subrange(0, old(self).hooks().len() as int) == old(self).hooks(),
            !old(self).store().contains(key) ==> r == Err::<Vec<(ComponentKey, LayoutNode)>, RenderEngineError>(
                RenderEngineError::InvalidComponentKey(key),
            ) && *final(self) == *old(self),
            old(self).store().contains(key) && children_match(old(self).store(), old(self).store().children_of(key), hoisted_children(child))
                ==> final(self).store() == old(self).store() && final(self).hooks() == old(self).hooks() && r is Ok,
            r is Ok ==> forall|i: int| 0 <= i < r->Ok_0@.len() ==> {
                &&& final(self).store().contains(#[trigger] r->Ok_0@[i].0)
                &&& final(self).store().instance(r->Ok_0@[i].0).layout == Some(r->Ok_0@[i].1)
            },
            r is Ok ==> final(self).store().contains(key),
            r is Ok ==> r->Ok_0@ == styled_preorder(final(self).store(), key),
            r is Err ==> capacity_error(r->Err_0) || (!old(self).store().contains(key) && r == Err::<
                Vec<(ComponentKey, LayoutNode)>,
                RenderEngineError,
            >(RenderEngineError::InvalidComponentKey(key))),
            r is Err && r->Err_0 == RenderEngineError::KeysExhausted ==> final(self).exhausted(),
            old(self).store().contains(key) && no_nodes(hoisted_children(child)) ==> r is Ok,
            forall|k: ComponentKey| #[trigger] old(self).store().contains(k) && !final(self).store().contains(k)
                ==> unmount_fired(final(self).hooks(), old(self).hooks().len() as int, final(self).hooks().len() as int, k),
            forall|c: ComponentKey, d: ComponentKey, n: nat| old(self).store().contains(c) && !final(self).store().contains(c)
                && #[trigger] below(old(self).store(), c, d, n) ==> !final(self).store().contains(d),
            r is Ok ==> forall|m: int| old(self).hooks().len() <= m < final(self).hooks().len()
                ==> #[trigger] final(self).hooks()[m] != Hook::WillUnmount(key) && final(self).hooks()[m] != Hook::DidMount(key),
            r is Ok && hoisted_children(child).len() == 0 ==> final(self).store().children_of(key).len() == 0,
            r is Ok ==> final(self).store().instance(key) == old(self).store().instance(key),
            r is Ok ==> {
                let olds = old(self).store().children_of(key);
                let kids = final(self).store().children_of(key);
                let news = hoisted_children(child);
                &&& forall|j: int| 0 <= j < olds.len() && j < news.len() && (news[j] is VirtualNode
                    ==> old(self).store().instance(olds[j]).tag@ == news[j]->VirtualNode_0.tag@)
                    ==> kids[j] == #[trigger] olds[j]
                &&& forall|c: ComponentKey| #[trigger] olds.contains(c) && !kids.contains(c) ==> !final(self).store().contains(c)
                &&& forall|c: ComponentKey| #[trigger] kids.contains(c) && !olds.contains(c) ==> !old(self).store().minted(c)
                &&& forall|c: ComponentKey| #[trigger] kids.contains(c) && !olds.contains(c) ==> mount_fired(
                    final(self).hooks(), old(self).hooks().len() as int, final(self).hooks().len() as int, c)
                &&& forall|c: ComponentKey| #[trigger] olds.contains(c) && !kids.contains(c) ==> unmount_fired(
                    final(self).hooks(), old(self).hooks().len() as int, final(self).hooks().len() as int, c)
                &&& forall|j: int| 0 <= j < olds.len() && j < news.len() && news[j] is VirtualNode
                    && old(self).store().instance(olds[j]).tag@ != news[j]->VirtualNode_0.tag@ ==> {
                    &&& j < kids.len()
                    &&& !old(self).store().minted(#[trigger] kids[j])
                    &&& final(self).store().instance(kids[j]).tag@ == news[j]->VirtualNode_0.tag@
                    &&& !final(self).store().contains(olds[j])
                }
            },
            r is Ok && all_nodes(hoisted_children(child)) ==> {
                let kids = final(self).store().children_of(key);
                &&& kids.len() == hoisted_children(child).len()
                &&& forall|j: int| 0 <= j < kids.len() ==> final(self).store().instance(#[trigger] kids[j]).tag@
                    == hoisted_children(child)[j]->VirtualNode_0.tag@
            },
    {
        if !self.components.contains_key(key) {
            return Err(RenderEngineError::InvalidComponentKey(key));
        }
        let children = root_children(child);
        let own = match self.components.get(key) {
            Ok(inst) => inst.layout,
            Err(e) => { return Err(e); },
        };
        let anchor = match own {
            Some(_) => Some(key),
            None => None,
        };
        proof {
            self.components.lemma_live_was_minted(key);
        }
        let ghost before_diff = *self;
        let res = self.diff_children(key, &children, anchor);
        proof {
            self.lemma_removals_spelled(&before_diff);
            if res is Ok {
                assert(before_diff.components.contains(key) && self.components.contains(key));
            }
            reveal(RenderEngine::advanced);
            reveal(RenderEngine::instances_kept);
            assert forall|k: ComponentKey| #[trigger] self.components.contains(k) && !old(self).components.contains(k)
                implies !old(self).components.minted(k) by {
                assert(self.components.contains(k) && !old(self).components.contains(k));
            }
        }
        res?;
        let mut out: Vec<(ComponentKey, LayoutNode)> = Vec::new();
        self.collect_styled_nodes(key, &mut out)?;
        Ok(out)
    }

    /// Appends, depth-first and parents before children, every component at
    /// or below `key` that has a layout node, with that node.
    fn collect_styled_nodes(&self, key: ComponentKey, out: &mut Vec<(ComponentKey, LayoutNode)>) -> (r: Result<(), RenderEngineError>)
        requires
            self.wf(),
            forall|i: int| 0 <= i < old(out)@.len() ==> {
                &&& self.components.contains(#[trigger] old(out)@[i].0)
                &&& self.components.instance(old(out)@[i].0).layout == Some(old(out)@[i].1)
            },
        ensures
            final(out)@.len() >= old(out)@.len(),
            final(out)@.subrange(0, old(out)@.len() as int) == old(out)@,
            forall|i: int| 0 <= i < final(out)@.len() ==> {
                &&& self.components.contains(#[trigger] final(out)@[i].0)
                &&& self.components.instance(final(out)@[i].0).layout == Some(final(out)@[i].1)
            },
            r is Ok <==> self.components.contains(key),
            r is Ok && self.components.instance(key).layout is Some ==> final(out)@.len() > old(out)@.len()
                && final(out)@[old(out)@.len() as int] == (key, self.components.instance(key).layout->Some_0),
            r is Ok ==> final(out)@ == old(out)@ + styled_preorder(self.components, key),
        decreases self.components.next() - key.local.id,
    {
        proof {
            assert(out@.subrange(0, out@.len() as int) =~= out@);
        }
        let own = match self.components.get(key) {
            Ok(inst) => inst.layout,
            Err(e) => { return Err(e); },
        };
        if let Some(l) = own {
            out.push((key, l));
        }
        let ghost pushed = out@;
        proof {
            assert(pushed =~= old(out)@ + (if own is Some { seq![(key, own->Some_0)] } else { Seq::<(ComponentKey, LayoutNode)>::empty() }));
        }
        let children = self.components.children(key)?;
        proof {
            assert(children@.subrange(0, 0) =~= Seq::<ComponentKey>::empty());
            assert(out@ =~= pushed + styled_children(self.components, key, children@.subrange(0, 0)));
        }
        let mut i: usize = 0;
        while i < children.len()
            invariant
                self.wf(),
                self.components.contains(key),
                children@ == self.components.children_of(key),
                out@.len() >= pushed.len(),
                out@.subrange(0, pushed.len() as int) == pushed,
                pushed.len() >= old(out)@.len(),
                pushed.subrange(0, old(out)@.len() as int) == old(out)@,
                own is Some ==> pushed.len() > old(out)@.len() && pushed[old(out)@.len() as int] == (key, own->Some_0),
                own == self.components.instance(key).layout,
                forall|j: int| 0 <= j < out@.len() ==> {
                    &&& self.components.contains(#[trigger] out@[j].0)
                    &&& self.components.instance(out@[j].0).layout == Some(out@[j].1)
                },
                0 <= i <= children@.len(),
                pushed == old(out)@ + (if own is Some { seq![(key, own->Some_0)] } else { Seq::empty() }),
                out@ == pushed + styled_children(self.components, key, children@.subrange(0, i as int)),
            decreases children@.len() - i,
        {
            let c = children[i];
            proof {
                assert(self.components.children_of(key).contains(c)) by {
                    assert(children@[i as int] == c);
                }
                self.components.lemma_child_of_live(key, c);
            }
            let ghost before = out@;
            let res = self.collect_styled_nodes(c, out);
            proof {
                assert(out@.subrange(0, pushed.len() as int) =~= out@.subrange(0, before.len() as int).subrange(0, pushed.len() as int));
            }
            res?;
            proof {
                let sub = children@.subrange(0, i + 1);
                assert(sub.drop_last() =~= children@.subrange(0, i as int));
                assert(sub.last() == c);
                assert(styled_children(self.components, key, sub) == styled_children(self.components, key, children@.subrange(0, i as int)) + styled_preorder(self.components, c));
                assert(out@ =~= pushed + styled_children(self.components, key, sub));
            }
            i = i + 1;
        }
        proof {
            assert(children@.subrange(0, children@.len() as int) =~= children@);
            assert(out@ =~= old(out)@ + styled_preorder(self.components, key));
            assert(out@.subrange(0, old(out)@.len() as int) =~= out@.subrange(0, pushed.len() as int).subrange(0, old(out)@.len() as int));
            if own is Some {
                assert(out@[old(out)@.len() as int] == out@.subrange(0, pushed.len() as int)[old(out)@.len() as int]);
            }
        }
        Ok(())
    }

    /// The payload bound to `key`.
    pub fn get(&self, key: ComponentKey) -> (r: Result<&Instance<C>, RenderEngineError>)
        requires
            self.wf(),
        ensures
            r is Ok <==> self.store().contains(key),
            r is Ok ==> *r->Ok_0 == self.store().instance(key),
            r is Err ==> r == Err::<&Instance<C>, RenderEngineError>(RenderEngineError::InvalidComponentKey(key)),
    {
        self.components.get(key)
    }

    /// A copy of `key`'s child list.
    pub fn children(&self, key: ComponentKey) -> (r: Result<Vec<ComponentKey>, RenderEngineError>)
        requires
            self.wf(),
        ensures
            r is Ok <==> self.store().contains(key),
            r is Ok ==> r->Ok_0@ == self.store().children_of(key),
            r is Err ==> r == Err::<Vec<ComponentKey>, RenderEngineError>(RenderEngineError::InvalidComponentKey(key)),
    {
        self.components.children(key)
    }

    /// The layout tree, for computing frames over its shape.
    pub fn layouts(&self) -> (r: &LayoutStore)
        ensures
            *r == self.layout_tree(),
    {
        &self.layouts
    }

    /// Links the nearest natively backed component at or below `child` to
    /// `parent`'s layout node, and attaches its platform widget under
    /// `parent`'s; components without a layout node in between are passed
    /// through.
    fn link_layout_nodes(&mut self, parent: ComponentKey, child: ComponentKey) -> (r: Result<(), RenderEngineError>)
        requires
            old(self).wf(),
            parent.local.id < child.local.id,
        ensures
            forall|n: LayoutNode| old(self).layouts.contains(n) && old(self).layout_handle(parent) != Some(n)
                ==> #[trigger] final(self).layouts.children_of(n) == old(self).layouts.children_of(n),
            final(self).wf(),
            final(self).components == old(self).components,
            final(self).hooks@ == old(self).hooks@,
            forall|n: LayoutNode| #[trigger] final(self).layouts.contains(n) <==> old(self).layouts.contains(n),
            old(self).components.contains(parent) && old(self).components.contains(child) ==> r is Ok,
            r is Ok && old(self).layout_handle(parent) is Some ==> {
                let p = old(self).layout_handle(parent)->Some_0;
                &&& forall|d: LayoutNode| #[trigger] old(self).layouts.children_of(p).contains(d)
                    ==> final(self).layouts.children_of(p).contains(d)
                &&& old(self).layout_handle(child) is Some ==> final(self).layouts.children_of(p).contains(
                    old(self).layout_handle(child)->Some_0,
                )
                &&& old(self).layout_handle(child) is Some ==> final(self).layouts.children_of(p)
                    == old(self).layouts.children_of(p).push(old(self).layout_handle(child)->Some_0)
                &&& final(self).layouts.children_of(p) == old(self).layouts.children_of(p) + native_tops(old(self).components, child)
                &&& old(self).layout_handle(child) is None ==> forall|g: ComponentKey|
                    #[trigger] old(self).components.children_of(child).contains(g) && old(self).components.contains(child)
                        && old(self).layout_handle(g) is Some ==> final(self).layouts.children_of(p).contains(
                        old(self).layout_handle(g)->Some_0,
                    )
            },
        decreases old(self).components.next() - child.local.id,
    {
        let pl = match self.components.get(parent) {
            Ok(inst) => inst.layout,
            Err(_) => None,
        };
        let cl = match self.components.get(child) {
            Ok(inst) => inst.layout,
            Err(_) => None,
        };
        if let (Some(p), Some(c)) = (pl, cl) {
            let ghost before = *self;
            if let Err(e) = self.layouts.add_child(p, c) {
                return Err(RenderEngineError::Layout(e));
            }
            proof {
                self.lemma_frame(&before);
                let l = self.layouts.children_of(p);
                assert(l == before.layouts.children_of(p).push(c));
                assert(l[l.len() - 1] == c);
                assert forall|d: LayoutNode| #[trigger] before.layouts.children_of(p).contains(d) implies l.contains(d) by {
                    let k = choose|k: int| 0 <= k < before.layouts.children_of(p).len() && before.layouts.children_of(p)[k] == d;
                    assert(l[k] == d);
                }
            }
            let native = match self.components.get(child) {
                Ok(inst) => inst.component.borrow_native_backing_node(),
                Err(_) => None,
            };
            if let Some(node) = native {
                if let Ok(inst) = self.components.get(parent) {
                    inst.component.append_child_node(node);
                }
            }
            return Ok(());
        }
        let children = self.components.children(child)?;
        proof {
            assert(children@.subrange(0, 0) =~= Seq::<ComponentKey>::empty());
            if pl is Some {
                assert(self.layouts.children_of(pl->Some_0) =~= old(self).layouts.children_of(pl->Some_0)
                    + native_tops_of(old(self).components, child, children@.subrange(0, 0)));
            }
        }
        let mut i: usize = 0;
        while i < children.len()
            invariant
                self.wf(),
                self.components == old(self).components,
                self.hooks == old(self).hooks,
                forall|n: LayoutNode| #[trigger] self.layouts.contains(n) <==> old(self).layouts.contains(n),
                old(self).components.contains(child),
                children@ == old(self).components.children_of(child),
                parent.local.id < child.local.id,
                0 <= i <= children@.len(),
                pl == old(self).layout_handle(parent),
                forall|n: LayoutNode| old(self).layouts.contains(n) && pl != Some(n) ==> #[trigger] self.layouts.children_of(n) == old(self).layouts.children_of(n),
                pl is Some ==> forall|d: LayoutNode| #[trigger] old(self).layouts.children_of(pl->Some_0).contains(d)
                    ==> self.layouts.children_of(pl->Some_0).contains(d),
                pl is Some ==> forall|j: int| 0 <= j < i && old(self).layout_handle(#[trigger] children@[j]) is Some
                    ==> self.layouts.children_of(pl->Some_0).contains(old(self).layout_handle(children@[j])->Some_0),
                pl is Some ==> self.layouts.children_of(pl->Some_0) == old(self).layouts.children_of(pl->Some_0)
                    + native_tops_of(old(self).components, child, children@.subrange(0, i as int)),
            decreases children@.len() - i,
        {
            let c = children[i];
            assert(old(self).components.children_of(child).contains(c)) by {
                assert(children@[i as int] == c);
            }
            proof {
                old(self).components.lemma_child_of_live(child, c);
            }
            let ghost before = *self;
            self.link_layout_nodes(parent, c)?;
            proof {
                if pl is Some {
                    let p = pl->Some_0;
                    let sub = children@.subrange(0, i + 1);
                    assert(sub.drop_last() =~= children@.subrange(0, i as int));
                    assert(sub.last() == c);
                    assert(native_tops_of(old(self).components, child, sub) == native_tops_of(old(self).components, child, children@.subrange(0, i as int)) + native_tops(old(self).components, c));
                    assert(self.layouts.children_of(p) =~= old(self).layouts.children_of(p) + native_tops_of(old(self).components, child, sub));
                    assert(before.layout_handle(parent) == pl);
                    assert forall|j: int| 0 <= j < i + 1 && old(self).layout_handle(#[trigger] children@[j]) is Some
                        implies self.layouts.children_of(p).contains(old(self).layout_handle(children@[j])->Some_0) by {
                        if j < i {
                            assert(before.layouts.children_of(p).contains(old(self).layout_handle(children@[j])->Some_0));
                        } else {
                            assert(before.layout_handle(c) == old(self).layout_handle(c));
                        }
                    }
                }
            }
            i = i + 1;
        }
        proof {
            assert(children@.subrange(0, children@.len() as int) =~= children@);
            if pl is Some && cl is None {
                let p = pl->Some_0;
                assert forall|g: ComponentKey|
                    #[trigger] old(self).components.children_of(child).contains(g) && old(self).components.contains(child)
                        && old(self).layout_handle(g) is Some implies self.layouts.children_of(p).contains(
                        old(self).layout_handle(g)->Some_0,
                    ) by {
                    let j = choose|j: int| 0 <= j < children@.len() && children@[j] == g;
                    assert(old(self).layout_handle(children@[j]) is Some);
                }
            }
        }
        Ok(())
    }

    /// Unlinks `nodes` from the layout node of `anchor`. A node that is not
    /// linked there has nothing to unlink, so the layout tree's refusal for
    /// it is expected and skipped; afterwards none of `nodes` is linked there.
    fn detach_layout_nodes(&mut self, anchor: Option<ComponentKey>, nodes: &Vec<LayoutNode>)
        requires
            old(self).wf(),
        ensures
            final(self).wf(),
            final(self).components == old(self).components,
            final(self).hooks@ == old(self).hooks@,
            forall|n: LayoutNode| #[trigger] final(self).layouts.contains(n) <==> old(self).layouts.contains(n),
            anchor is Some && old(self).layout_handle(anchor->Some_0) is Some ==> forall|j: int| 0 <= j < nodes@.len()
                ==> !final(self).layouts.children_of(old(self).layout_handle(anchor->Some_0)->Some_0).contains(#[trigger] nodes@[j]),
    {
        let al = match anchor {
            Some(a) => match self.components.get(a) {
                Ok(inst) => inst.layout,
                Err(_) => None,
            },
            None => None,
        };
        if let Some(p) = al {
            proof {
                let a = anchor->Some_0;
                assert(self.components.contains(a) && self.components.instance(a).layout is Some);
            }
            let mut i: usize = 0;
            while i < nodes.len()
                invariant
                    self.layouts.contains(p),
                    self.wf(),
                    self.components == old(self).components,
                    self.hooks == old(self).hooks,
                    forall|n: LayoutNode| #[trigger] self.layouts.contains(n) <==> old(self).layouts.contains(n),
                    0 <= i <= nodes@.len(),
                    forall|j: int| 0 <= j < i ==> !self.layouts.children_of(p).contains(#[trigger] nodes@[j]),
                decreases nodes@.len() - i,
            {
                let ghost before = *self;
                let res = self.layouts.remove_child(p, nodes[i]);
                proof {
                    self.lemma_frame(&before);
                    if res is Ok {
                        crate::storage::lemma_without_contains(before.layouts.children_of(p), nodes@[i as int]);
                    }
                    assert forall|j: int| 0 <= j < i + 1 implies !self.layouts.children_of(p).contains(#[trigger] nodes@[j]) by {
                        if j < i {
                            assert(!before.layouts.children_of(p).contains(nodes@[j]));
                        }
                    }
                }
                i = i + 1;
            }
        }
    }

    /// Unmounts the subtree at `key`, deepest first: every child's subtree,
    /// then the unmount hook of `key`, then its removal from the arena.
    /// Returns the layout nodes at the top of the subtree, which the caller
    /// unlinks from the nearest natively backed ancestor.
    fn unmount_component_tree(&mut self, key: ComponentKey) -> (r: Result<Vec<LayoutNode>, RenderEngineError>)
        requires
            old(self).wf(),
        ensures
            final(self).wf(),
            final(self).components.store_id() == old(self).components.store_id(),
            final(self).components.next() == old(self).components.next(),
            forall|n: LayoutNode| #[trigger] old(self).layouts.contains(n) ==> final(self).layouts.contains(n),
            forall|k: ComponentKey| #[trigger] final(self).components.contains(k) ==> {
                &&& old(self).components.contains(k)
                &&& final(self).components.instance(k) == old(self).components.instance(k)
            },
            forall|k: ComponentKey| #[trigger] old(self).components.contains(k) && k.local.id < key.local.id ==> final(self).components.contains(k),
            final(self).hooks@.len() >= old(self).hooks@.len(),
            final(self).hooks@.subrange(0, old(self).hooks@.len() as int) == old(self).hooks@,
            old(self).components.contains(key) <==> r is Ok,
            final(self).removals_ok(old(self)),
            !old(self).components.contains(key) ==> r == Err::<Vec<LayoutNode>, RenderEngineError>(
                RenderEngineError::InvalidComponentKey(key),
            ) && *final(self) == *old(self),
            r is Ok && old(self).components.instance(key).layout is Some ==> r->Ok_0@ == seq![
                old(self).components.instance(key).layout->Some_0,
            ],
            r is Ok ==> forall|j: int| 0 <= j < r->Ok_0@.len() ==> final(self).layouts.contains(#[trigger] r->Ok_0@[j]),
            r is Ok ==> r->Ok_0@ == native_tops(old(self).components, key),
            r is Ok ==> {
                let ext = final(self).hooks@.subrange(old(self).hooks@.len() as int, final(self).hooks@.len() as int);
                &&& old(self).components.contains(key)
                &&& !final(self).components.contains(key)
                &&& ext.len() > 0
                &&& ext.last() == Hook::WillUnmount(key)
                &&& forall|c: ComponentKey| #[trigger] old(self).components.children_of(key).contains(c) ==>
                    exists|j: int| 0 <= j < ext.len() - 1 && ext[j] == Hook::WillUnmount(c)
                &&& forall|k: ComponentKey| #[trigger] old(self).components.contains(k) && k.local.id < key.local.id
                    ==> final(self).components.children_of(k) == without(old(self).components.children_of(k), key)
                &&& forall|k: ComponentKey| #[trigger] final(self).components.contains(k)
                    ==> final(self).components.children_of(k) == without(old(self).components.children_of(k), key)
                &&& forall|d: ComponentKey, n: nat| #[trigger] below(old(self).components, key, d, n) ==> unmount_fired(
                    final(self).hooks@,
                    old(self).hooks@.len() as int,
                    final(self).hooks@.len() - 1,
                    d,
                )
                &&& forall|d: ComponentKey, n: nat| #[trigger] below(old(self).components, key, d, n) ==> !final(self).components.contains(d)
            },
        decreases old(self).components.next() - key.local.id,
    {
        proof {
            self.lemma_removals_refl();
            assert(self.hooks@.subrange(0, self.hooks@.len() as int) =~= self.hooks@);
        }
        let children = self.components.children(key)?;
        let own = match self.components.get(key) {
            Ok(inst) => inst.layout,
            Err(e) => { return Err(e); },
        };
        let ghost h0 = self.hooks@;
        proof {
            assert(children@.no_duplicates());
        }
        proof {
            self.lemma_advanced_refl();
            self.lemma_removals_refl();
        }
        let mut pending: Vec<LayoutNode> = Vec::new();
        proof {
            assert(children@.subrange(0, 0) =~= Seq::<ComponentKey>::empty());
            assert(pending@ =~= native_tops_of(old(self).components, key, children@.subrange(0, 0)));
        }
        let mut i: usize = 0;
        while i < children.len()
            invariant
                old(self).wf(),
                self.wf(),
                old(self).components.contains(key),
                children@ == old(self).components.children_of(key),
                0 <= i <= children@.len(),
                self.components.store_id() == old(self).components.store_id(),
                self.components.next() == old(self).components.next(),
                forall|n: LayoutNode| #[trigger] old(self).layouts.contains(n) ==> self.layouts.contains(n),
                forall|k: ComponentKey| #[trigger] self.components.contains(k) ==> {
                    &&& old(self).components.contains(k)
                    &&& self.components.instance(k) == old(self).components.instance(k)
                },
                forall|k: ComponentKey| #[trigger] old(self).components.contains(k) && k.local.id <= key.local.id ==> self.components.contains(k),
                h0 == old(self).hooks@,
                self.hooks@.len() >= h0.len(),
                self.hooks@.subrange(0, h0.len() as int) == h0,
                forall|j: int| 0 <= j < i ==> exists|m: int| h0.len() <= m < self.hooks@.len() && self.hooks@[m] == Hook::WillUnmount(#[trigger] children@[j]),
                forall|k: ComponentKey| #[trigger] old(self).components.contains(k) && k.local.id < key.local.id
                    ==> self.components.children_of(k) == old(self).components.children_of(k),
                forall|k: ComponentKey| #[trigger] self.components.contains(k) && k != key
                    ==> self.components.children_of(k) == old(self).components.children_of(k),
                self.components.contains(key),
                children@.no_duplicates(),
                forall|j: int| i <= j < children@.len() ==> self.components.children_of(key).contains(#[trigger] children@[j]),
                forall|j: int, d: ComponentKey, n: nat| 0 <= j < i && #[trigger] below(old(self).components, children@[j], d, n)
                    ==> unmount_fired(self.hooks@, h0.len() as int, self.hooks@.len() as int, d),
                forall|j: int, d: ComponentKey, n: nat| 0 <= j < i && #[trigger] below(old(self).components, children@[j], d, n)
                    ==> !self.components.contains(d),
                forall|j: int| 0 <= j < i ==> !self.components.contains(#[trigger] children@[j]),
                forall|j: int| 0 <= j < pending@.len() ==> self.layouts.contains(#[trigger] pending@[j]),
                self.advanced(old(self)),
                self.removals_ok(old(self)),
                forall|x: ComponentKey| #[trigger] self.components.children_of(key).contains(x) ==> children@.contains(x),
                own == old(self).components.instance(key).layout,
                own is None ==> pending@ == native_tops_of(old(self).components, key, children@.subrange(0, i as int)),
            decreases children@.len() - i,
        {
            let c = children[i];
            assert(old(self).components.children_of(key).contains(c)) by {
                assert(children@[i as int] == c);
            }
            proof {
                old(self).components.lemma_child_of_live(key, c);
                assert(self.components.children_of(key).contains(children@[i as int]));
                self.components.lemma_child_of_live(key, c);
            }
            let ghost before = *self;
            let res = self.unmount_component_tree(c);
            proof {
                assert(self.hooks@.subrange(0, h0.len() as int) == self.hooks@.subrange(0, before.hooks@.len() as int).subrange(0, h0.len() as int));
            }
            let nodes = res?;
            proof {
                assert forall|x: ComponentKey| #[trigger] before.components.contains(x) && c.local.id <= x.local.id implies {
                    &&& old(self).components.contains(x)
                    &&& old(self).components.instance(x).layout == before.components.instance(x).layout
                    &&& old(self).components.children_of(x) == before.components.children_of(x)
                } by {
                    assert(before.components.contains(x) && x != key);
                }
                lemma_tops_frame(old(self).components, before.components, c);
                let sub = children@.subrange(0, i + 1);
                assert(sub.drop_last() =~= children@.subrange(0, i as int));
                assert(sub.last() == c);
                old(self).components.lemma_live_was_minted(c);
                assert(native_tops_of(old(self).components, key, sub) == native_tops_of(old(self).components, key, children@.subrange(0, i as int))
                    + native_tops(old(self).components, c));
                assert(self.hooks@.subrange(0, before.hooks@.len() as int) == before.hooks@);
                RenderEngine::lemma_advance(old(self), &before, self);
                before.lemma_advanced_refl();
                RenderEngine::lemma_advance(&before, &before, self);
                RenderEngine::lemma_removals_trans(old(self), &before, self);
                crate::storage::lemma_without_contains(before.components.children_of(key), c);
                assert forall|x: ComponentKey| #[trigger] self.components.children_of(key).contains(x) implies children@.contains(x) by {
                    assert(before.components.children_of(key).contains(x));
                }
                assert(before.components.children_of(key).contains(c)) by {
                    assert(children@[i as int] == c);
                }
                before.components.lemma_child_of_live(key, c);
                assert forall|k: ComponentKey| #[trigger] self.components.contains(k) && k != key
                    implies self.components.children_of(k) == old(self).components.children_of(k) by {
                    assert(before.components.contains(k));
                    assert(before.components.children_of(k) == old(self).components.children_of(k));
                    assert(!old(self).components.children_of(k).contains(c)) by {
                        if old(self).components.children_of(k).contains(c) {
                            old(self).components.lemma_child_of_live(k, c);
                            old(self).components.lemma_child_of_live(key, c);
                            let ps = old(self).components.parents_of(c);
                            let a = choose|a: int| 0 <= a < ps.len() && ps[a] == k;
                            let b = choose|b: int| 0 <= b < ps.len() && ps[b] == key;
                        }
                    }
                    crate::storage::lemma_without_absent(old(self).components.children_of(k), c);
                }
                assert(self.components.contains(key));
                crate::storage::lemma_without_contains(before.components.children_of(key), c);
                assert forall|j: int| i + 1 <= j < children@.len() implies self.components.children_of(key).contains(#[trigger] children@[j]) by {
                    assert(before.components.children_of(key).contains(children@[j]));
                    assert(children@[j] != children@[i as int]);
                }
                assert forall|k: ComponentKey| #[trigger] before.components.contains(k) && c.local.id <= k.local.id
                    implies old(self).components.children_of(k) == before.components.children_of(k) by {
                    assert(before.components.contains(k) && k != key);
                }
                assert forall|j: int, d: ComponentKey, n: nat| 0 <= j < i + 1 && #[trigger] below(old(self).components, children@[j], d, n)
                    implies unmount_fired(self.hooks@, h0.len() as int, self.hooks@.len() as int, d) by {
                    if j < i {
                        lemma_unmount_fired_grows(before.hooks@, self.hooks@, h0.len() as int, before.hooks@.len() as int, d);
                    } else {
                        lemma_below_frame(before.components, old(self).components, c, d, n);
                        let m = choose|m: int| before.hooks@.len() <= m < self.hooks@.len() - 1 && self.hooks@[m] == Hook::WillUnmount(d);
                    }
                }
                assert forall|j: int, d: ComponentKey, n: nat| 0 <= j < i + 1 && #[trigger] below(old(self).components, children@[j], d, n)
                    implies !self.components.contains(d) by {
                    if j < i {
                        if self.components.contains(d) {
                            assert(before.components.contains(d));
                        }
                    } else {
                        lemma_below_frame(before.components, old(self).components, c, d, n);
                    }
                }
                assert forall|j: int| 0 <= j < i + 1 implies !self.components.contains(#[trigger] children@[j]) by {
                    if j < i && self.components.contains(children@[j]) {
                        assert(before.components.contains(children@[j]));
                    }
                }
                assert forall|k: ComponentKey| #[trigger] old(self).components.contains(k) && k.local.id < key.local.id
                    implies self.components.children_of(k) == old(self).components.children_of(k) by {
                    assert(before.components.contains(k));
                    assert(!old(self).components.children_of(k).contains(c)) by {
                        if old(self).components.children_of(k).contains(c) {
                            old(self).components.lemma_child_of_live(k, c);
                            old(self).components.lemma_child_of_live(key, c);
                            assert(old(self).components.parents_of(c).len() <= 1);
                            let ps = old(self).components.parents_of(c);
                            let a = choose|a: int| 0 <= a < ps.len() && ps[a] == k;
                            let b = choose|b: int| 0 <= b < ps.len() && ps[b] == key;
                        }
                    }
                    crate::storage::lemma_without_absent(old(self).components.children_of(k), c);
                }
                let ext = self.hooks@.subrange(before.hooks@.len() as int, self.hooks@.len() as int);
                assert(self.hooks@[self.hooks@.len() - 1] == ext.last());
                assert forall|j: int| 0 <= j < i + 1 implies exists|m: int| h0.len() <= m < self.hooks@.len() && self.hooks@[m] == Hook::WillUnmount(#[trigger] children@[j]) by {
                    if j < i {
                        let m = choose|m: int| h0.len() <= m < before.hooks@.len() && before.hooks@[m] == Hook::WillUnmount(children@[j]);
                        assert(self.hooks@.subrange(0, before.hooks@.len() as int)[m] == before.hooks@[m]);
                    } else {
                        assert(self.hooks@[self.hooks@.len() - 1] == Hook::WillUnmount(children@[j]));
                    }
                }
                assert(self.hooks@.subrange(0, h0.len() as int) == self.hooks@.subrange(0, before.hooks@.len() as int).subrange(0, h0.len() as int));
            }
            match own {
                Some(_) => {
                    let ghost pre_detach = *self;
                    self.detach_layout_nodes(Some(key), &nodes);
                    proof {
                        assert(self.hooks@.subrange(0, pre_detach.hooks@.len() as int) =~= pre_detach.hooks@);
                        RenderEngine::lemma_advance(old(self), &pre_detach, self);
                        pre_detach.lemma_advanced_refl();
                        RenderEngine::lemma_advance(&pre_detach, &pre_detach, self);
                        RenderEngine::lemma_removals_same(&pre_detach, self);
                        RenderEngine::lemma_removals_trans(old(self), &pre_detach, self);
                    }
                },
                None => {
                    let ghost pre_pending = pending@;
                    let mut j: usize = 0;
                    while j < nodes.len()
                        invariant
                            pending@ == pre_pending + nodes@.subrange(0, j as int),
                            0 <= j <= nodes@.len(),
                            forall|k: int| 0 <= k < pending@.len() ==> self.layouts.contains(#[trigger] pending@[k]),
                            forall|k: int| 0 <= k < nodes@.len() ==> self.layouts.contains(#[trigger] nodes@[k]),
                        decreases nodes@.len() - j,
                    {
                        pending.push(nodes[j]);
                        j = j + 1;
                        assert(pending@ =~= pre_pending + nodes@.subrange(0, j as int));
                    }
                    assert(nodes@.subrange(0, nodes@.len() as int) =~= nodes@);
                },
            }
            i = i + 1;
        }
        assert(self.components.contains(key));
        let ghost before = *self;
        self.components.will_unmount(key);
        self.hooks = Ghost(self.components.hooks());
        proof {
            assert(self.components.instance(key).tag == before.components.instance(key).tag);
            self.lemma_forest_grow(&before, key);
            self.lemma_frame(&before);
        }
        let ghost hooked = *self;
        let _ = self.components.remove(key);
        proof {
            self.lemma_forest_remove(&hooked, key);
            self.lemma_frame(&hooked);
            assert(self.components.hooks() == before.components.hooks().push(Hook::WillUnmount(key)));
            reveal(RenderEngine::removals_ok);
            assert forall|a: ComponentKey, b: ComponentKey|
                before.components.contains(a) && !self.components.contains(a) && #[trigger] before.components.children_of(a).contains(b)
                    implies !self.components.contains(b) by {
                if a != key {
                    assert(hooked.components.contains(a));
                }
                assert(before.components.children_of(key).contains(b));
                assert(children@.contains(b));
                let j = choose|j: int| 0 <= j < children@.len() && children@[j] == b;
                assert(!before.components.contains(children@[j]));
                if self.components.contains(b) {
                    assert(hooked.components.contains(b));
                }
            }
            assert forall|k: ComponentKey| #[trigger] before.components.contains(k) && !self.components.contains(k)
                implies unmount_fired(self.hooks@, before.hooks@.len() as int, self.hooks@.len() as int, k) by {
                if k != key {
                    assert(hooked.components.contains(k));
                }
                assert(self.hooks@[before.hooks@.len() as int] == Hook::WillUnmount(key));
            }
            assert forall|a: ComponentKey, b: ComponentKey|
                before.components.contains(a) && self.components.contains(a) && self.components.contains(b)
                    && #[trigger] before.components.children_of(a).contains(b) implies self.components.children_of(a).contains(b) by {
                assert(hooked.components.contains(a) && a != key);
                assert(hooked.components.children_of(a) == before.components.children_of(a)) by {
                    assert(hooked.components.instance(a).tag == before.components.instance(a).tag);
                }
                crate::storage::lemma_without_contains(hooked.components.children_of(a), key);
            }
            assert(self.hooks@.len() == before.hooks@.len() + 1);
            before.components.lemma_live_was_minted(key);
            assert forall|m: int| before.hooks@.len() <= m < self.hooks@.len() && #[trigger] self.hooks@[m] is WillUnmount implies {
                &&& !self.components.contains(self.hooks@[m]->WillUnmount_0)
                &&& self.hooks@[m]->WillUnmount_0.local.id < self.components.next()
            } by {
                assert(m == before.hooks@.len());
            }
            assert forall|m: int| before.hooks@.len() <= m < self.hooks@.len() && #[trigger] self.hooks@[m] is DidMount
                implies before.components.next() <= self.hooks@[m]->DidMount_0.local.id by {
                assert(m == before.hooks@.len());
            }
            assert(self.removals_ok(&before));
            assert(self.hooks@.subrange(0, before.hooks@.len() as int) =~= before.hooks@);
            RenderEngine::lemma_advance(old(self), &before, self);
            before.lemma_advanced_refl();
            RenderEngine::lemma_advance(&before, &before, self);
            RenderEngine::lemma_removals_trans(old(self), &before, self);
            assert forall|k: ComponentKey| #[trigger] old(self).components.contains(k) && k.local.id < key.local.id
                implies self.components.children_of(k) == without(old(self).components.children_of(k), key) by {
                assert(before.components.contains(k));
                assert(before.components.instance(k).tag == hooked.components.instance(k).tag);
                assert(hooked.components.children_of(k) == before.components.children_of(k));
                assert(hooked.components.contains(k));
                assert(k != key);
                assert(self.components.children_of(k) == without(hooked.components.children_of(k), key));
            }
            assert forall|k: ComponentKey| #[trigger] self.components.contains(k)
                implies self.components.children_of(k) == without(old(self).components.children_of(k), key) by {
                assert(hooked.components.contains(k) && k != key);
                assert(before.components.contains(k));
                assert(before.components.instance(k).tag == hooked.components.instance(k).tag);
                assert(hooked.components.children_of(k) == before.components.children_of(k));
                assert(before.components.contains(k) && k != key);
            }
            assert forall|d: ComponentKey, n: nat| #[trigger] below(old(self).components, key, d, n) implies unmount_fired(
                self.hooks@,
                old(self).hooks@.len() as int,
                self.hooks@.len() - 1,
                d,
            ) by {
                let c = choose|c: ComponentKey| #[trigger] old(self).components.children_of(key).contains(c)
                    && (c == d || below(old(self).components, c, d, (n - 1) as nat));
                let j = choose|j: int| 0 <= j < children@.len() && children@[j] == c;
                if c == d {
                    let m = choose|m: int| h0.len() <= m < before.hooks@.len() && before.hooks@[m] == Hook::WillUnmount(#[trigger] children@[j]);
                    assert(self.hooks@[m] == Hook::WillUnmount(d));
                } else {
                    assert(0 <= j < children@.len() && below(old(self).components, children@[j], d, (n - 1) as nat));
                    let m = choose|m: int| h0.len() <= m < before.hooks@.len() && before.hooks@[m] == Hook::WillUnmount(d);
                    assert(self.hooks@[m] == Hook::WillUnmount(d));
                }
            }
            assert forall|d: ComponentKey, n: nat| #[trigger] below(old(self).components, key, d, n)
                implies !self.components.contains(d) by {
                let c = choose|c: ComponentKey| #[trigger] old(self).components.children_of(key).contains(c)
                    && (c == d || below(old(self).components, c, d, (n - 1) as nat));
                let j = choose|j: int| 0 <= j < children@.len() && children@[j] == c;
                if self.components.contains(d) {
                    assert(hooked.components.contains(d));
                    assert(before.components.contains(d));
                    if c != d {
                        assert(0 <= j < children@.len() && below(old(self).components, children@[j], d, (n - 1) as nat));
                    }
                }
            }
            let ext = self.hooks@.subrange(old(self).hooks@.len() as int, self.hooks@.len() as int);
            assert(ext.last() == Hook::WillUnmount(key));
            assert(self.hooks@.subrange(0, h0.len() as int) == h0) by {
                assert(self.hooks@.subrange(0, h0.len() as int) == before.hooks@.subrange(0, h0.len() as int));
            }
            assert forall|c: ComponentKey| #[trigger] old(self).components.children_of(key).contains(c) implies
                exists|j: int| 0 <= j < ext.len() - 1 && ext[j] == Hook::WillUnmount(c) by {
                let j = choose|j: int| 0 <= j < children@.len() && children@[j] == c;
                let m = choose|m: int| h0.len() <= m < before.hooks@.len() && before.hooks@[m] == Hook::WillUnmount(children@[j]);
                assert(ext[m - h0.len()] == Hook::WillUnmount(c));
            }
        }
        proof {
            assert(children@.subrange(0, children@.len() as int) =~= children@);
        }
        let mut top: Vec<LayoutNode> = Vec::new();
        match own {
            Some(p) => {
                top.push(p);
            },
            None => {
                top = pending;
            },
        }
        Ok(top)
    }

    /// Builds, renders and mounts a fresh subtree for `tree`, outward-in, and
    /// fires each component's mount hook once its own subtree is mounted.
    /// A render that fails mounts nothing below its component. Nesting
    /// deeper than `depth` fails with `TreeTooDeep`.
    fn mount_component_tree(&mut self, tree: &VirtualNode<C::Props>, depth: usize) -> (r: Result<ComponentKey, RenderEngineError>)
        requires
            old(self).wf(),
        ensures
            r is Ok ==> forall|k: ComponentKey| #[trigger] final(self).components.contains(k) && !old(self).components.contains(k)
                ==> k == r->Ok_0 || exists|n: nat| below(final(self).components, r->Ok_0, k, n),
            forall|n: LayoutNode| old(self).layouts.contains(n) ==> #[trigger] final(self).layouts.children_of(n)
                == old(self).layouts.children_of(n),
            mounts_only(final(self).hooks@, old(self).hooks@.len() as int, final(self).hooks@.len() as int, old(self).components.next()),
            final(self).wf(),
            final(self).components.store_id() == old(self).components.store_id(),
            final(self).components.next() >= old(self).components.next(),
            forall|n: LayoutNode| #[trigger] old(self).layouts.contains(n) ==> final(self).layouts.contains(n),
            forall|k: ComponentKey| #[trigger] old(self).components.contains(k) ==> {
                &&& final(self).components.contains(k)
                &&& final(self).components.instance(k) == old(self).components.instance(k)
                &&& final(self).components.children_of(k) == old(self).components.children_of(k)
                &&& final(self).components.parents_of(k) == old(self).components.parents_of(k)
            },
            forall|k: ComponentKey| #[trigger] final(self).components.contains(k) && !old(self).components.contains(k)
                ==> old(self).components.next() <= k.local.id,
            final(self).hooks@.len() >= old(self).hooks@.len(),
            final(self).hooks@.subrange(0, old(self).hooks@.len() as int) == old(self).hooks@,
            depth == 0 ==> r == Err::<ComponentKey, RenderEngineError>(RenderEngineError::TreeTooDeep) && *final(self) == *old(self),
            depth > 0 && !(old(self).components.can_mint() && old(self).layouts.can_allocate())
                ==> r == Err::<ComponentKey, RenderEngineError>(RenderEngineError::KeysExhausted) && *final(self) == *old(self),
            r is Err ==> capacity_error(r->Err_0),
            r is Err && r->Err_0 == RenderEngineError::KeysExhausted ==> final(self).exhausted(),
            r is Ok ==> {
                let k = r->Ok_0;
                let ext = final(self).hooks@.subrange(old(self).hooks@.len() as int, final(self).hooks@.len() as int);
                &&& final(self).components.instance(k).style_keys@.len() == tree.styles@.len()
                &&& forall|j: int| 0 <= j < tree.styles@.len() ==> #[trigger] final(self).components.instance(k).style_keys@[j]@ == tree.styles@[j]@
                &&& k.instance == old(self).components.store_id()
                &&& old(self).components.next() <= k.local.id
                &&& final(self).components.contains(k)
                &&& final(self).components.instance(k).tag@ == tree.tag@
                &&& final(self).components.parents_of(k).len() == 0
                &&& ext.len() > 0
                &&& ext.last() == Hook::DidMount(k)
                &&& forall|c: ComponentKey| #[trigger] final(self).components.children_of(k).contains(c) ==>
                    exists|j: int| 0 <= j < ext.len() - 1 && ext[j] == Hook::DidMount(c)
                &&& forall|d: ComponentKey, n: nat| #[trigger] below(final(self).components, k, d, n) ==> mount_fired(
                    final(self).hooks@,
                    old(self).hooks@.len() as int,
                    final(self).hooks@.len() - 1,
                    d,
                )
            },
        decreases depth, 2int,
    {
        proof {
            assert(self.hooks@.subrange(0, self.hooks@.len() as int) =~= self.hooks@);
        }
        if depth == 0 {
            return Err(RenderEngineError::TreeTooDeep);
        }
        if !self.components.has_capacity() || !self.layouts.has_capacity() {
            return Err(RenderEngineError::KeysExhausted);
        }
        let ghost start = *self;
        let key = self.components.new_key();
        let component = C::new(key, &tree.props);
        let native = component.has_native_backing_node();
        let layout = if native {
            Some(self.layouts.new_node())
        } else {
            None
        };
        let rendered = component.render(&tree.children);
        let tag = tree.tag.clone();
        let style_keys = copy_styles(&tree.styles);
        let _ = self.components.insert(key, Instance { tag, style_keys, component, layout });
        proof {
            assert forall|a: ComponentKey, b: ComponentKey|
                #![trigger self.components.instance(a), self.components.instance(b)]
                self.components.contains(a) && self.components.contains(b) && a.local.id < b.local.id
                    && self.components.instance(a).layout is Some && self.components.instance(b).layout is Some
                    implies self.components.instance(a).layout->Some_0.local.id < self.components.instance(b).layout->Some_0.local.id by {
                if b == key {
                    assert(start.components.contains(a));
                    start.layouts.lemma_contains_below_next(start.components.instance(a).layout->Some_0);
                } else if a == key {
                    assert(start.components.contains(b));
                    start.components.lemma_live_was_minted(b);
                } else {
                    assert(start.components.contains(a));
                    assert(start.components.contains(b));
                }
            }
            assert forall|k: ComponentKey|
                #[trigger] self.components.contains(k) && self.components.instance(k).layout is Some
                    implies self.layouts.contains(self.components.instance(k).layout->Some_0) by {
                if k != key {
                    assert(start.components.contains(k));
                }
            }
        }
        let ghost mounted = *self;
        proof {
            assert forall|k: ComponentKey| #[trigger] old(self).components.contains(k) implies {
                &&& mounted.components.contains(k)
                &&& mounted.components.instance(k) == old(self).components.instance(k)
                &&& mounted.components.children_of(k) == old(self).components.children_of(k)
                &&& mounted.components.parents_of(k) == old(self).components.parents_of(k)
                &&& k != key
            } by {
                old(self).components.lemma_live_was_minted(k);
            }
            assert(mounted.hooks@ == old(self).hooks@);
            assert forall|n: LayoutNode| #[trigger] old(self).layouts.contains(n) implies mounted.layouts.contains(n) by {}
        }
        self.mount_rendered(key, &rendered, native, depth)?;
        let ghost before = *self;
        proof {
            assert forall|c: ComponentKey, d: ComponentKey, n: nat| #[trigger] before.components.children_of(key).contains(c)
                && #[trigger] below(before.components, c, d, n) implies mount_fired(
                before.hooks@,
                mounted.hooks@.len() as int,
                before.hooks@.len() as int,
                d,
            ) by {
                if mounted.components.children_of(key).contains(c) {
                    assert(mounted.components.children_of(key).len() == 0);
                }
            }
        }
        self.components.did_mount(key);
        self.hooks = Ghost(self.components.hooks());
        proof {
            self.lemma_frame(&before);
            let ext = self.hooks@.subrange(old(self).hooks@.len() as int, self.hooks@.len() as int);
            assert(ext.last() == Hook::DidMount(key));
            assert(self.hooks@.subrange(0, old(self).hooks@.len() as int) == old(self).hooks@) by {
                assert(self.hooks@.subrange(0, old(self).hooks@.len() as int) == before.hooks@.subrange(0, old(self).hooks@.len() as int));
            }
            assert forall|c: ComponentKey| #[trigger] self.components.children_of(key).contains(c) implies
                exists|j: int| 0 <= j < ext.len() - 1 && ext[j] == Hook::DidMount(c) by {
                assert(self.components.instance(key).tag == before.components.instance(key).tag);
                assert(before.components.children_of(key) == self.components.children_of(key));
                let m = choose|m: int| mounted.hooks@.len() <= m < before.hooks@.len() && before.hooks@[m] == Hook::DidMount(c);
                assert(ext[m - old(self).hooks@.len()] == Hook::DidMount(c));
            }
            assert forall|k: ComponentKey| #[trigger] before.components.contains(k) && key.local.id <= k.local.id
                implies self.components.children_of(k) == before.components.children_of(k) by {
                assert(self.components.instance(k).tag == before.components.instance(k).tag);
            }
            assert forall|d: ComponentKey, n: nat| #[trigger] below(self.components, key, d, n) implies mount_fired(
                self.hooks@,
                old(self).hooks@.len() as int,
                self.hooks@.len() - 1,
                d,
            ) by {
                lemma_below_frame(before.components, self.components, key, d, n);
                let c = choose|c: ComponentKey| #[trigger] before.components.children_of(key).contains(c)
                    && (c == d || below(before.components, c, d, (n - 1) as nat));
                if c == d {
                    let m = choose|m: int| mounted.hooks@.len() <= m < before.hooks@.len() && before.hooks@[m] == Hook::DidMount(c);
                    assert(self.hooks@[m] == Hook::DidMount(d));
                } else {
                    assert(before.components.children_of(key).contains(c) && below(before.components, c, d, (n - 1) as nat));
                    let m = choose|m: int| mounted.hooks@.len() <= m < before.hooks@.len() && before.hooks@[m] == Hook::DidMount(d);
                    assert(self.hooks@[m] == Hook::DidMount(d));
                }
            }
            assert forall|k: ComponentKey| #[trigger] old(self).components.contains(k) implies {
                &&& self.components.contains(k)
                &&& self.components.instance(k) == old(self).components.instance(k)
                &&& self.components.children_of(k) == old(self).components.children_of(k)
                &&& self.components.parents_of(k) == old(self).components.parents_of(k)
            } by {
                assert(mounted.components.contains(k));
                assert(k != key);
                assert(mounted.components.instance(k) == old(self).components.instance(k));
                assert(before.components.contains(k));
                assert(before.components.instance(k) == mounted.components.instance(k));
                assert(before.components.children_of(k) == mounted.components.children_of(k));
                assert(before.components.parents_of(k) == mounted.components.parents_of(k));
                assert(self.components.contains(k));
                assert(self.components.instance(k) == before.components.instance(k));
                assert(self.components.children_of(k) == before.components.children_of(k));
                assert(self.components.parents_of(k) == before.components.parents_of(k));
            }
        }
        proof {
            assert forall|k: ComponentKey, x: ComponentKey| before.components.contains(k) && key.local.id <= k.local.id
                && #[trigger] before.components.children_of(k).contains(x) implies self.components.children_of(k).contains(x) by {
                assert(self.components.instance(k).tag == before.components.instance(k).tag);
            }
            assert forall|k: ComponentKey| #[trigger] self.components.contains(k) && !old(self).components.contains(k)
                implies k == key || exists|n: nat| below(self.components, key, k, n) by {
                if k != key {
                    assert(before.components.contains(k));
                    if mounted.components.contains(k) {
                        assert(start.components.contains(k));
                    }
                    let n = choose|n: nat| below(before.components, key, k, n);
                    lemma_below_carry(self.components, before.components, key, k, n);
                }
            }
        }
        Ok(key)
    }

    /// Mounts what `key`'s component rendered: a fragment's structural
    /// children in order, or a single structural node; text, an empty render
    /// or a failed render mount nothing.
    fn mount_rendered(&mut self, key: ComponentKey, rendered: &Result<RSX<C::Props>, RenderError>, native: bool, depth: usize) -> (r: Result<(), RenderEngineError>)
        requires
            old(self).wf(),
            old(self).components.contains(key),
            old(self).components.children_of(key).len() == 0,
            depth > 0,
        ensures
            r is Ok ==> forall|k: ComponentKey| #[trigger] final(self).components.contains(k) && !old(self).components.contains(k)
                ==> exists|n: nat| below(final(self).components, key, k, n),
            forall|n: LayoutNode| old(self).layouts.contains(n) && old(self).layout_handle(key) != Some(n)
                ==> #[trigger] final(self).layouts.children_of(n) == old(self).layouts.children_of(n),
            mounts_only(final(self).hooks@, old(self).hooks@.len() as int, final(self).hooks@.len() as int, old(self).components.next()),
            final(self).wf(),
            final(self).components.contains(key),
            final(self).components.instance(key) == old(self).components.instance(key),
            final(self).components.parents_of(key) == old(self).components.parents_of(key),
            final(self).components.store_id() == old(self).components.store_id(),
            final(self).components.next() >= old(self).components.next(),
            forall|n: LayoutNode| #[trigger] old(self).layouts.contains(n) ==> final(self).layouts.contains(n),
            forall|k: ComponentKey| #[trigger] old(self).components.contains(k) && k != key ==> {
                &&& final(self).components.contains(k)
                &&& final(self).components.instance(k) == old(self).components.instance(k)
                &&& final(self).components.children_of(k) == old(self).components.children_of(k)
                &&& final(self).components.parents_of(k) == old(self).components.parents_of(k)
            },
            forall|k: ComponentKey| #[trigger] final(self).components.contains(k) && !old(self).components.contains(k)
                ==> old(self).components.next() <= k.local.id,
            final(self).hooks@.len() >= old(self).hooks@.len(),
            final(self).hooks@.subrange(0, old(self).hooks@.len() as int) == old(self).hooks@,
            forall|c: ComponentKey| #[trigger] final(self).components.children_of(key).contains(c) ==>
                exists|m: int| old(self).hooks@.len() <= m < final(self).hooks@.len() && final(self).hooks@[m] == Hook::DidMount(c),
            forall|c: ComponentKey, d: ComponentKey, n: nat| #[trigger] final(self).components.children_of(key).contains(c)
                && #[trigger] below(final(self).components, c, d, n) ==> mount_fired(
                final(self).hooks@,
                old(self).hooks@.len() as int,
                final(self).hooks@.len() as int,
                d,
            ),
            r is Err ==> capacity_error(r->Err_0),
            r is Err && r->Err_0 == RenderEngineError::KeysExhausted ==> final(self).exhausted(),
            no_nodes(rendered_children(*rendered)) ==> r is Ok,
            r is Ok ==> {
                &&& final(self).components.children_of(key).len() == node_tags(rendered_children(*rendered)).len()
                &&& forall|j: int| 0 <= j < final(self).components.children_of(key).len() ==> final(self).components.instance(
                    #[trigger] final(self).components.children_of(key)[j],
                ).tag@ == node_tags(rendered_children(*rendered))[j]
            },
        decreases depth, 1int,
    {
        let ghost mounted = *self;
        proof {
            assert(self.hooks@.subrange(0, self.hooks@.len() as int) =~= self.hooks@);
            assert(node_tags(Seq::<RSX<C::Props>>::empty()) =~= Seq::<Seq<char>>::empty());
        }
        match &rendered {
            Ok(RSX::VirtualNode(child)) => {
                if is_fragment_tag(&child.tag) {
                    proof {
                        assert(child.children@.subrange(0, 0) =~= Seq::<RSX<C::Props>>::empty());
                        assert(rendered_children(*rendered) == child.children@);
                    }
                    let mut i: usize = 0;
                    while i < child.children.len()
                        invariant
                            self.wf(),
                            mounted.wf(),
                            depth > 0,
                            mounted.components.store_id() == old(self).components.store_id(),
                            mounted.components.next() >= old(self).components.next(),
                            forall|n: LayoutNode| #[trigger] old(self).layouts.contains(n) ==> mounted.layouts.contains(n),
                            forall|k: ComponentKey| #[trigger] mounted.components.contains(k) && !old(self).components.contains(k)
                                ==> old(self).components.next() <= k.local.id,
                            mounted.hooks@ == old(self).hooks@,
                            mounted == *old(self),
                            mounted.components.children_of(key).len() == 0,
                            rendered_children(*rendered) == child.children@,
                            mounted.components.contains(key),
                            forall|k: ComponentKey| #[trigger] self.components.contains(k) && !mounted.components.contains(k)
                                ==> exists|n: nat| below(self.components, key, k, n),
                            forall|n: LayoutNode| mounted.layouts.contains(n) && mounted.layout_handle(key) != Some(n)
                                ==> #[trigger] self.layouts.children_of(n) == mounted.layouts.children_of(n),
                            mounts_only(self.hooks@, mounted.hooks@.len() as int, self.hooks@.len() as int, mounted.components.next()),
                            0 <= i <= child.children@.len(),
                            self.components.children_of(key).len() == node_tags(child.children@.subrange(0, i as int)).len(),
                            forall|j: int| 0 <= j < self.components.children_of(key).len() ==> self.components.instance(
                                #[trigger] self.components.children_of(key)[j],
                            ).tag@ == node_tags(child.children@.subrange(0, i as int))[j],
                            self.components.contains(key),
                            self.components.instance(key) == mounted.components.instance(key),
                            self.components.parents_of(key) == mounted.components.parents_of(key),
                            self.components.store_id() == mounted.components.store_id(),
                            self.components.next() >= mounted.components.next(),
                            forall|n: LayoutNode| #[trigger] mounted.layouts.contains(n) ==> self.layouts.contains(n),
                            forall|k: ComponentKey| #[trigger] mounted.components.contains(k) && k != key ==> {
                                &&& self.components.contains(k)
                                &&& self.components.instance(k) == mounted.components.instance(k)
                                &&& self.components.children_of(k) == mounted.components.children_of(k)
                                &&& self.components.parents_of(k) == mounted.components.parents_of(k)
                            },
                            forall|k: ComponentKey| #[trigger] self.components.contains(k) && !mounted.components.contains(k)
                                ==> mounted.components.next() <= k.local.id,
                            self.hooks@.len() >= mounted.hooks@.len(),
                            self.hooks@.subrange(0, mounted.hooks@.len() as int) == mounted.hooks@,
                            forall|c: ComponentKey| #[trigger] self.components.children_of(key).contains(c) ==>
                                exists|m: int| mounted.hooks@.len() <= m < self.hooks@.len() && self.hooks@[m] == Hook::DidMount(c),
                            forall|c: ComponentKey, d: ComponentKey, n: nat| #[trigger] self.components.children_of(key).contains(c)
                                && #[trigger] below(self.components, c, d, n) ==> mount_fired(
                                self.hooks@,
                                mounted.hooks@.len() as int,
                                self.hooks@.len() as int,
                                d,
                            ),
                        decreases child.children@.len() - i,
                    {
                        if let RSX::VirtualNode(t) = &child.children[i] {
                            proof {
                                assert(rendered_children(*rendered)[i as int] is VirtualNode);
                            }
                            let ghost before = *self;
                            let res = self.mount_into(key, t, depth - 1, native);
                            proof {
                                lemma_prefix_chain(mounted.hooks@, before.hooks@, self.hooks@);
                                lemma_mounts_only_join(before.hooks@, self.hooks@, mounted.hooks@.len() as int, before.hooks@.len() as int, self.hooks@.len() as int, mounted.components.next(), before.components.next());
                                if res is Ok {
                                    let nk = choose|nk: ComponentKey| {
                                        &&& #[trigger] self.components.children_of(key) == before.components.children_of(key).push(nk)
                                        &&& self.components.contains(nk)
                                        &&& !before.components.contains(nk)
                                        &&& self.components.instance(nk).tag@ == t.tag@
                                    };
                                    assert forall|k: ComponentKey, x: ComponentKey| before.components.contains(k) && key.local.id <= k.local.id
                                        && #[trigger] before.components.children_of(k).contains(x) implies self.components.children_of(k).contains(x) by {
                                        if k == key {
                                            let l = before.components.children_of(key);
                                            let m = choose|m: int| 0 <= m < l.len() && l[m] == x;
                                            assert(self.components.children_of(key)[m] == x);
                                        }
                                    }
                                    assert forall|k: ComponentKey| #[trigger] self.components.contains(k) && !mounted.components.contains(k)
                                        implies exists|n: nat| below(self.components, key, k, n) by {
                                        if before.components.contains(k) {
                                            let n = choose|n: nat| below(before.components, key, k, n);
                                            lemma_below_carry(self.components, before.components, key, k, n);
                                        }
                                    }
                                }
                                assert forall|n: LayoutNode| mounted.layouts.contains(n) && mounted.layout_handle(key) != Some(n)
                                    implies #[trigger] self.layouts.children_of(n) == mounted.layouts.children_of(n) by {
                                    assert(before.layouts.contains(n));
                                    assert(before.components.contains(key) && mounted.components.contains(key));
                                    assert(before.components.instance(key) == mounted.components.instance(key));
                                    assert(before.store() == before.components && mounted.store() == mounted.components);
                                    assert(before.layout_handle(key) == mounted.layout_handle(key));
                                    assert(before.layouts.children_of(n) == mounted.layouts.children_of(n));
                                }
                            }
                            res?;
                            proof {
                                let nk = choose|nk: ComponentKey| {
                                    &&& #[trigger] self.components.children_of(key) == before.components.children_of(key).push(nk)
                                    &&& self.components.contains(nk)
                                    &&& !before.components.contains(nk)
                                    &&& self.components.instance(nk).tag@ == t.tag@
                                };
                                let sub = child.children@.subrange(0, i + 1);
                                assert(sub.drop_last() =~= child.children@.subrange(0, i as int));
                                assert(sub.last() == child.children@[i as int]);
                                assert(node_tags(sub) == node_tags(child.children@.subrange(0, i as int)) + seq![t.tag@]);
                                assert forall|j: int| 0 <= j < self.components.children_of(key).len() implies self.components.instance(
                                    #[trigger] self.components.children_of(key)[j],
                                ).tag@ == node_tags(sub)[j] by {
                                    if j < before.components.children_of(key).len() {
                                        let cj = before.components.children_of(key)[j];
                                        assert(self.components.children_of(key)[j] == cj);
                                        before.components.lemma_child_of_live(key, cj);
                                        assert(before.components.children_of(key).contains(cj));
                                        assert(before.components.contains(cj) && cj != key);
                                    }
                                }
                                assert forall|c: ComponentKey, d: ComponentKey, n: nat| #[trigger] self.components.children_of(key).contains(c)
                                    && #[trigger] below(self.components, c, d, n) implies mount_fired(
                                    self.hooks@,
                                    mounted.hooks@.len() as int,
                                    self.hooks@.len() as int,
                                    d,
                                ) by {
                                    if before.components.children_of(key).contains(c) && below(before.components, c, d, n) {
                                        lemma_fired_grows(before.hooks@, self.hooks@, mounted.hooks@.len() as int, before.hooks@.len() as int, d);
                                    } else {
                                        let m = choose|m: int| before.hooks@.len() <= m < self.hooks@.len() && self.hooks@[m] == Hook::DidMount(d);
                                    }
                                }
                            }
                        }
                        proof {
                            let sub = child.children@.subrange(0, i + 1);
                            assert(sub.drop_last() =~= child.children@.subrange(0, i as int));
                            if !(child.children@[i as int] is VirtualNode) {
                                assert(node_tags(sub) =~= node_tags(child.children@.subrange(0, i as int)));
                            }
                        }
                        i = i + 1;
                    }
                    proof {
                        assert(child.children@.subrange(0, child.children@.len() as int) =~= child.children@);
                    }
                } else {
                    proof {
                        assert(rendered_children(*rendered) == seq![(*rendered)->Ok_0]);
                        assert(rendered_children(*rendered)[0] is VirtualNode);
                    }
                    self.mount_into(key, child, depth - 1, native)?;
                    proof {
                        assert(mounted.components.children_of(key).len() == 0);
                        let s1 = seq![(*rendered)->Ok_0];
                        assert(s1.drop_last() =~= Seq::<RSX<C::Props>>::empty());
                        assert(node_tags(s1) =~= seq![child.tag@]);
                    }
                }
            },
            _ => {},
        }
        Ok(())
    }

    /// Mounts `tree` as a new last child of `parent`, linking layout nodes
    /// when `link` is set.
    fn mount_into(&mut self, parent: ComponentKey, tree: &VirtualNode<C::Props>, depth: usize, link: bool) -> (r: Result<(), RenderEngineError>)
        requires
            old(self).wf(),
            old(self).components.contains(parent),
        ensures
            r is Ok ==> forall|k: ComponentKey| #[trigger] final(self).components.contains(k) && !old(self).components.contains(k)
                ==> exists|n: nat| below(final(self).components, parent, k, n),
            forall|n: LayoutNode| old(self).layouts.contains(n) && old(self).layout_handle(parent) != Some(n)
                ==> #[trigger] final(self).layouts.children_of(n) == old(self).layouts.children_of(n),
            mounts_only(final(self).hooks@, old(self).hooks@.len() as int, final(self).hooks@.len() as int, old(self).components.next()),
            final(self).wf(),
            final(self).components.contains(parent),
            final(self).components.instance(parent) == old(self).components.instance(parent),
            final(self).components.parents_of(parent) == old(self).components.parents_of(parent),
            final(self).components.store_id() == old(self).components.store_id(),
            final(self).components.next() >= old(self).components.next(),
            forall|n: LayoutNode| #[trigger] old(self).layouts.contains(n) ==> final(self).layouts.contains(n),
            forall|k: ComponentKey| #[trigger] old(self).components.contains(k) && k != parent ==> {
                &&& final(self).components.contains(k)
                &&& final(self).components.instance(k) == old(self).components.instance(k)
                &&& final(self).components.children_of(k) == old(self).components.children_of(k)
                &&& final(self).components.parents_of(k) == old(self).components.parents_of(k)
            },
            forall|k: ComponentKey| #[trigger] final(self).components.contains(k) && !old(self).components.contains(k)
                ==> old(self).components.next() <= k.local.id,
            final(self).hooks@.len() >= old(self).hooks@.len(),
            final(self).hooks@.subrange(0, old(self).hooks@.len() as int) == old(self).hooks@,
            forall|c: ComponentKey| #[trigger] final(self).components.children_of(parent).contains(c) ==>
                old(self).components.children_of(parent).contains(c)
                || exists|m: int| old(self).hooks@.len() <= m < final(self).hooks@.len() && final(self).hooks@[m] == Hook::DidMount(c),
            forall|c: ComponentKey, d: ComponentKey, n: nat| #[trigger] final(self).components.children_of(parent).contains(c)
                && #[trigger] below(final(self).components, c, d, n) ==> (old(self).components.children_of(parent).contains(c)
                && below(old(self).components, c, d, n)) || mount_fired(
                final(self).hooks@,
                old(self).hooks@.len() as int,
                final(self).hooks@.len() as int,
                d,
            ),
            r is Err ==> capacity_error(r->Err_0),
            r is Err && r->Err_0 == RenderEngineError::KeysExhausted ==> final(self).exhausted(),
            r is Ok ==> exists|nk: ComponentKey| {
                &&& #[trigger] final(self).components.children_of(parent) == old(self).components.children_of(parent).push(nk)
                &&& final(self).components.contains(nk)
                &&& !old(self).components.contains(nk)
                &&& final(self).components.instance(nk).tag@ == tree.tag@
            },
        decreases depth, 3int,
    {
        let ghost start = *self;
        let res = self.mount_component_tree(tree, depth);
        proof {
            assert forall|k: ComponentKey| #[trigger] start.components.contains(k) implies self.components.contains(k) by {}
            assert forall|c: ComponentKey| #[trigger] self.components.children_of(parent).contains(c) implies
                start.components.children_of(parent).contains(c)
                || exists|m: int| start.hooks@.len() <= m < self.hooks@.len() && self.hooks@[m] == Hook::DidMount(c) by {
                assert(start.components.contains(parent));
            }
            assert forall|c: ComponentKey, d: ComponentKey, n: nat| #[trigger] self.components.children_of(parent).contains(c)
                && #[trigger] below(self.components, c, d, n) implies (start.components.children_of(parent).contains(c)
                && below(start.components, c, d, n)) || mount_fired(
                self.hooks@,
                start.hooks@.len() as int,
                self.hooks@.len() as int,
                d,
            ) by {
                assert(start.components.contains(parent));
                assert(start.components.children_of(parent).contains(c));
                start.components.lemma_child_of_live(parent, c);
                assert forall|k: ComponentKey| #[trigger] start.components.contains(k) && c.local.id <= k.local.id
                    implies self.components.children_of(k) == start.components.children_of(k) by {}
                lemma_below_frame(start.components, self.components, c, d, n);
            }
        }
        let child = res?;
        let ghost mounted = *self;
        proof {
            start.components.lemma_live_was_minted(parent);
        }
        let ghost before = *self;
        match self.components.add_child(parent, child) {
            Ok(()) => {},
            Err(e) => { return Err(e); },
        }
        proof {
            assert(before.components.children_of(parent).push(child) == before.components.children_of(parent).insert(before.components.children_of(parent).len() as int, child));
            self.lemma_forest_link(&before, parent, child, before.components.children_of(parent).len() as int);
            self.lemma_frame(&before);
        }
        if link {
            let ghost added = *self;
            match self.link_layout_nodes(parent, child) {
                Ok(()) => {},
                Err(e) => { return Err(e); },
            }
        }
        proof {
            let ext = self.hooks@.subrange(start.hooks@.len() as int, self.hooks@.len() as int);
            assert(self.hooks@[self.hooks@.len() - 1] == Hook::DidMount(child));
            assert forall|c: ComponentKey| #[trigger] self.components.children_of(parent).contains(c) implies
                start.components.children_of(parent).contains(c)
                || exists|m: int| start.hooks@.len() <= m < self.hooks@.len() && self.hooks@[m] == Hook::DidMount(c) by {
                let l = self.components.children_of(parent);
                let k = choose|k: int| 0 <= k < l.len() && l[k] == c;
                if k < l.len() - 1 {
                    assert(start.components.children_of(parent)[k] == c);
                }
            }
            assert forall|k: ComponentKey| #[trigger] start.components.contains(k) && k != parent implies {
                &&& self.components.contains(k)
                &&& self.components.instance(k) == start.components.instance(k)
                &&& self.components.children_of(k) == start.components.children_of(k)
                &&& self.components.parents_of(k) == start.components.parents_of(k)
            } by {
                assert(before.components.contains(k));
                start.components.lemma_live_was_minted(k);
            }
            assert forall|c: ComponentKey, d: ComponentKey, n: nat| #[trigger] self.components.children_of(parent).contains(c)
                && #[trigger] below(self.components, c, d, n) implies (start.components.children_of(parent).contains(c)
                && below(start.components, c, d, n)) || mount_fired(
                self.hooks@,
                start.hooks@.len() as int,
                self.hooks@.len() as int,
                d,
            ) by {
                let l = self.components.children_of(parent);
                let k = choose|k: int| 0 <= k < l.len() && l[k] == c;
                if k < l.len() - 1 {
                    assert(start.components.children_of(parent)[k] == c);
                    assert(start.components.children_of(parent).contains(c));
                    start.components.lemma_child_of_live(parent, c);
                    assert forall|x: ComponentKey| #[trigger] start.components.contains(x) && c.local.id <= x.local.id
                        implies self.components.children_of(x) == start.components.children_of(x) by {
                        assert(start.components.contains(x) && x != parent);
                    }
                    lemma_below_frame(start.components, self.components, c, d, n);
                } else {
                    assert(c == child);
                    assert forall|x: ComponentKey| #[trigger] mounted.components.contains(x) && child.local.id <= x.local.id
                        implies self.components.children_of(x) == mounted.components.children_of(x) by {
                        assert(x != parent);
                        assert(before.components.contains(x));
                    }
                    lemma_below_frame(mounted.components, self.components, child, d, n);
                    assert(self.hooks@ == mounted.hooks@);
                    assert(self.hooks@.subrange(0, mounted.hooks@.len() as int) =~= mounted.hooks@);
                    lemma_fired_grows(mounted.hooks@, self.hooks@, start.hooks@.len() as int, mounted.hooks@.len() - 1, d);
                }
            }
        }
        proof {
            assert(before.components.children_of(parent) == start.components.children_of(parent));
            assert(self.components.children_of(parent) == start.components.children_of(parent).push(child));
            if start.components.contains(child) {
                start.components.lemma_live_was_minted(child);
            }
            assert(self.components.instance(child) == before.components.instance(child));
        }
        proof {
            assert forall|k: ComponentKey, x: ComponentKey| mounted.components.contains(k) && child.local.id <= k.local.id
                && #[trigger] mounted.components.children_of(k).contains(x) implies self.components.children_of(k).contains(x) by {
                assert(before.components.contains(k) && k != parent);
            }
            assert(self.components.children_of(parent).contains(child)) by {
                assert(self.components.children_of(parent)[self.components.children_of(parent).len() - 1] == child);
            }
            assert forall|k: ComponentKey| #[trigger] self.components.contains(k) && !start.components.contains(k)
                implies exists|n: nat| below(self.components, parent, k, n) by {
                if k == child {
                    assert(below(self.components, parent, k, 1));
                } else {
                    assert(mounted.components.contains(k));
                    let n = choose|n: nat| below(mounted.components, child, k, n);
                    lemma_below_carry(self.components, mounted.components, child, k, n);
                    assert(below(self.components, parent, k, n + 1));
                }
            }
        }
        Ok(())
    }

    /// What every diff step keeps: the arena's id, a growing key counter,
    /// every layout node, fresh keys for every new instance, and the hooks
    /// fired so far.
    #[verifier::opaque]
    spec fn advanced(&self, old: &Self) -> bool {
        &&& self.components.store_id() == old.components.store_id()
        &&& self.components.next() >= old.components.next()
        &&& forall|n: LayoutNode| #[trigger] old.layouts.contains(n) ==> self.layouts.contains(n)
        &&& forall|k: ComponentKey| #[trigger] self.components.contains(k) && !old.components.contains(k)
            ==> old.components.next() <= k.local.id
        &&& self.hooks@.len() >= old.hooks@.len()
        &&& self.hooks@.subrange(0, old.hooks@.len() as int) == old.hooks@
    }

    /// What a step does to the keys it unbinds: with a key it unbinds every
    /// key below it, each unbound key got its unmount hook, and every link
    /// between two keys that stay bound is kept.
    #[verifier::opaque]
    spec fn removals_ok(&self, old: &Self) -> bool {
        &&& forall|a: ComponentKey, b: ComponentKey|
            old.components.contains(a) && !self.components.contains(a) && #[trigger] old.components.children_of(a).contains(b)
                ==> !self.components.contains(b)
        &&& forall|k: ComponentKey| #[trigger] old.components.contains(k) && !self.components.contains(k)
            ==> unmount_fired(self.hooks@, old.hooks@.len() as int, self.hooks@.len() as int, k)
        &&& forall|a: ComponentKey, b: ComponentKey|
            old.components.contains(a) && self.components.contains(a) && self.components.contains(b)
                && #[trigger] old.components.children_of(a).contains(b) ==> self.components.children_of(a).contains(b)
        &&& forall|m: int| old.hooks@.len() <= m < self.hooks@.len() && #[trigger] self.hooks@[m] is WillUnmount ==> {
            &&& !self.components.contains(self.hooks@[m]->WillUnmount_0)
            &&& self.hooks@[m]->WillUnmount_0.local.id < self.components.next()
        }
        &&& forall|m: int| old.hooks@.len() <= m < self.hooks@.len() && #[trigger] self.hooks@[m] is DidMount
            ==> old.components.next() <= self.hooks@[m]->DidMount_0.local.id
    }

    /// What `removals_ok` says, spelled out: a key that ends unbound takes
    /// every key below it with it, each unbound key got its unmount hook, and
    /// no hook names a key bound both before and after.
    proof fn lemma_removals_spelled(&self, old: &Self)
        requires
            old.wf(),
            self.removals_ok(old),
        ensures
            forall|k: ComponentKey| #[trigger] old.components.contains(k) && !self.components.contains(k)
                ==> unmount_fired(self.hooks@, old.hooks@.len() as int, self.hooks@.len() as int, k),
            forall|c: ComponentKey, d: ComponentKey, n: nat| old.components.contains(c) && !self.components.contains(c)
                && #[trigger] below(old.components, c, d, n) ==> !self.components.contains(d),
            forall|k: ComponentKey, m: int| #![trigger self.components.contains(k), self.hooks@[m]] old.components.contains(k) && self.components.contains(k)
                && old.hooks@.len() <= m < self.hooks@.len() ==> self.hooks@[m] != Hook::WillUnmount(k)
                && self.hooks@[m] != Hook::DidMount(k),
    {
        reveal(RenderEngine::removals_ok);
        assert forall|c: ComponentKey, d: ComponentKey, n: nat| old.components.contains(c) && !self.components.contains(c)
            && #[trigger] below(old.components, c, d, n) implies !self.components.contains(d) by {
            self.lemma_removed_below(old, c, d, n);
        }
        assert forall|k: ComponentKey, m: int| #![trigger self.components.contains(k), self.hooks@[m]] old.components.contains(k) && self.components.contains(k)
            && old.hooks@.len() <= m < self.hooks@.len() implies self.hooks@[m] != Hook::WillUnmount(k)
            && self.hooks@[m] != Hook::DidMount(k) by {
            old.components.lemma_live_was_minted(k);
            if self.hooks@[m] is WillUnmount {
            }
            if self.hooks@[m] is DidMount {
            }
        }
    }

    proof fn lemma_removed_below(&self, old: &Self, c: ComponentKey, d: ComponentKey, n: nat)
        requires
            old.wf(),
            self.removals_ok(old),
            old.components.contains(c),
            !self.components.contains(c),
            below(old.components, c, d, n),
        ensures
            !self.components.contains(d),
        decreases n,
    {
        reveal(RenderEngine::removals_ok);
        let x = choose|x: ComponentKey| #[trigger] old.components.children_of(c).contains(x) && (x == d || below(old.components, x, d, (n - 1) as nat));
        old.components.lemma_child_of_live(c, x);
        assert(!self.components.contains(x));
        if x != d {
            self.lemma_removed_below(old, x, d, (n - 1) as nat);
        }
    }

    proof fn lemma_removals_refl(&self)
        ensures
            self.removals_ok(self),
    {
        reveal(RenderEngine::removals_ok);
    }

    /// A step that unbinds nothing and drops no link keeps `removals_ok`.
    proof fn lemma_removals_grow(a: &Self, b: &Self)
        requires
            forall|k: ComponentKey| #[trigger] a.components.contains(k) ==> b.components.contains(k),
            forall|x: ComponentKey, y: ComponentKey| a.components.contains(x) && #[trigger] a.components.children_of(x).contains(y)
                ==> b.components.children_of(x).contains(y),
            mounts_only(b.hooks@, a.hooks@.len() as int, b.hooks@.len() as int, a.components.next()),
        ensures
            b.removals_ok(a),
    {
        reveal(RenderEngine::removals_ok);
    }

    proof fn lemma_removals_same(a: &Self, b: &Self)
        requires
            b.components == a.components,
            b.hooks@ == a.hooks@,
        ensures
            b.removals_ok(a),
    {
        reveal(RenderEngine::removals_ok);
    }

    proof fn lemma_removals_trans(a: &Self, b: &Self, c: &Self)
        requires
            a.wf(),
            b.wf(),
            b.advanced(a),
            c.advanced(b),
            b.removals_ok(a),
            c.removals_ok(b),
        ensures
            c.removals_ok(a),
    {
        reveal(RenderEngine::removals_ok);
        reveal(RenderEngine::advanced);
        assert forall|k: ComponentKey| a.components.contains(k) && !b.components.contains(k) implies !c.components.contains(k) by {
            a.components.lemma_live_was_minted(k);
            if c.components.contains(k) {
                assert(c.components.contains(k) && !b.components.contains(k));
            }
        }
        assert forall|x: ComponentKey, y: ComponentKey|
            a.components.contains(x) && !c.components.contains(x) && #[trigger] a.components.children_of(x).contains(y)
                implies !c.components.contains(y) by {
            if b.components.contains(x) {
                if b.components.contains(y) {
                    assert(a.components.contains(x) && b.components.contains(x) && b.components.contains(y)
                        && a.components.children_of(x).contains(y));
                    assert(b.components.children_of(x).contains(y));
                } else {
                    a.components.lemma_child_of_live(x, y);
                    assert(a.components.contains(y) && !b.components.contains(y));
                }
            } else {
                a.components.lemma_child_of_live(x, y);
                assert(a.components.contains(y) && !b.components.contains(y));
            }
        }
        assert forall|k: ComponentKey| #[trigger] a.components.contains(k) && !c.components.contains(k)
            implies unmount_fired(c.hooks@, a.hooks@.len() as int, c.hooks@.len() as int, k) by {
            if b.components.contains(k) {
                assert(b.components.contains(k) && !c.components.contains(k));
                let m = choose|m: int| b.hooks@.len() <= m < c.hooks@.len() && c.hooks@[m] == Hook::WillUnmount(k);
            } else {
                assert(a.components.contains(k) && !b.components.contains(k));
                lemma_unmount_fired_grows(b.hooks@, c.hooks@, a.hooks@.len() as int, b.hooks@.len() as int, k);
            }
        }
        assert forall|x: ComponentKey, y: ComponentKey|
            a.components.contains(x) && c.components.contains(x) && c.components.contains(y)
                && #[trigger] a.components.children_of(x).contains(y) implies c.components.children_of(x).contains(y) by {
            assert(b.components.contains(x)) by {
                if !b.components.contains(x) {
                    a.components.lemma_live_was_minted(x);
                    assert(c.components.contains(x) && !b.components.contains(x));
                }
            }
            a.components.lemma_child_of_live(x, y);
            assert(b.components.contains(y)) by {
                if !b.components.contains(y) {
                    a.components.lemma_live_was_minted(y);
                    assert(c.components.contains(y) && !b.components.contains(y));
                }
            }
            assert(a.components.contains(x) && b.components.contains(x) && b.components.contains(y)
                && a.components.children_of(x).contains(y));
            assert(b.components.children_of(x).contains(y));
        }
        assert forall|m: int| a.hooks@.len() <= m < c.hooks@.len() && #[trigger] c.hooks@[m] is WillUnmount implies {
            &&& !c.components.contains(c.hooks@[m]->WillUnmount_0)
            &&& c.hooks@[m]->WillUnmount_0.local.id < c.components.next()
        } by {
            if m < b.hooks@.len() {
                assert(c.hooks@.subrange(0, b.hooks@.len() as int)[m] == c.hooks@[m]);
                let k = c.hooks@[m]->WillUnmount_0;
                assert(b.hooks@[m] is WillUnmount);
                if c.components.contains(k) {
                    assert(c.components.contains(k) && !b.components.contains(k));
                }
            }
        }
        assert forall|m: int| a.hooks@.len() <= m < c.hooks@.len() && #[trigger] c.hooks@[m] is DidMount
            implies a.components.next() <= c.hooks@[m]->DidMount_0.local.id by {
            if m < b.hooks@.len() {
                assert(c.hooks@.subrange(0, b.hooks@.len() as int)[m] == c.hooks@[m]);
                assert(b.hooks@[m] is DidMount);
            }
        }
    }

    /// Every key minted before `x` that was live is live still, with the
    /// same children.
    #[verifier::opaque]
    spec fn lower_kept(&self, old: &Self, x: ComponentKey) -> bool {
        forall|k: ComponentKey| #[trigger] old.components.contains(k) && k.local.id < x.local.id ==> {
            &&& self.components.contains(k)
            &&& self.components.children_of(k) == old.components.children_of(k)
        }
    }

    /// Every instance live in both states is as it was.
    #[verifier::opaque]
    spec fn instances_kept(&self, old: &Self) -> bool {
        forall|k: ComponentKey| #[trigger] self.components.contains(k) && old.components.contains(k)
            ==> self.components.instance(k) == old.components.instance(k)
    }

    proof fn lemma_advanced_refl(&self)
        ensures
            self.advanced(self),
            self.instances_kept(self),
            forall|x: ComponentKey| self.lower_kept(self, x),
    {
        reveal(RenderEngine::advanced);
        reveal(RenderEngine::instances_kept);
        reveal(RenderEngine::lower_kept);
        assert(self.hooks@.subrange(0, self.hooks@.len() as int) =~= self.hooks@);
    }

    /// Chains one more step onto `b.advanced(a)`.
    proof fn lemma_advance(a: &Self, b: &Self, c: &Self)
        requires
            b.advanced(a),
            c.components.store_id() == b.components.store_id(),
            c.components.next() >= b.components.next(),
            forall|n: LayoutNode| #[trigger] b.layouts.contains(n) ==> c.layouts.contains(n),
            forall|k: ComponentKey| #[trigger] c.components.contains(k) && !b.components.contains(k)
                ==> b.components.next() <= k.local.id,
            c.hooks@.len() >= b.hooks@.len(),
            c.hooks@.subrange(0, b.hooks@.len() as int) == b.hooks@,
        ensures
            c.advanced(a),
    {
        reveal(RenderEngine::advanced);
        lemma_prefix_chain(a.hooks@, b.hooks@, c.hooks@);
        lemma_layouts_grow(a.layouts, b.layouts, c.layouts);
        assert forall|k: ComponentKey| #[trigger] c.components.contains(k) && !a.components.contains(k)
            implies a.components.next() <= k.local.id by {
            if !b.components.contains(k) {
            } else {
                assert(b.components.contains(k) && !a.components.contains(k));
            }
        }
    }

    /// Chains one more step onto `b.instances_kept(a)`.
    proof fn lemma_instances_step(a: &Self, b: &Self, c: &Self)
        requires
            a.wf(),
            b.instances_kept(a),
            b.advanced(a),
            c.components.next() >= b.components.next(),
            forall|k: ComponentKey| #[trigger] c.components.contains(k) && !b.components.contains(k)
                ==> b.components.next() <= k.local.id,
            forall|k: ComponentKey| #[trigger] c.components.contains(k) && b.components.contains(k)
                ==> c.components.instance(k) == b.components.instance(k),
        ensures
            c.instances_kept(a),
    {
        reveal(RenderEngine::instances_kept);
        reveal(RenderEngine::advanced);
        assert forall|k: ComponentKey| #[trigger] c.components.contains(k) && a.components.contains(k)
            implies c.components.instance(k) == a.components.instance(k) by {
            a.components.lemma_live_was_minted(k);
            if !b.components.contains(k) {
                assert(c.components.contains(k) && !b.components.contains(k));
            }
            assert(b.components.contains(k) && a.components.contains(k));
        }
    }

    /// Chains one more step onto `b.lower_kept(a, x)`.
    proof fn lemma_lower_step(a: &Self, b: &Self, c: &Self, x: ComponentKey)
        requires
            b.lower_kept(a, x),
            forall|k: ComponentKey| #[trigger] b.components.contains(k) && k.local.id < x.local.id ==> {
                &&& c.components.contains(k)
                &&& c.components.children_of(k) == b.components.children_of(k)
            },
        ensures
            c.lower_kept(a, x),
    {
        reveal(RenderEngine::lower_kept);
        assert forall|k: ComponentKey| #[trigger] a.components.contains(k) && k.local.id < x.local.id implies {
            &&& c.components.contains(k)
            &&& c.components.children_of(k) == a.components.children_of(k)
        } by {
            assert(b.components.contains(k));
        }
    }

    proof fn lemma_steps_trans(a: &Self, b: &Self, c: &Self, x: ComponentKey)
        requires
            a.wf(),
            b.advanced(a),
            c.advanced(b),
            b.instances_kept(a),
            c.instances_kept(b),
            b.lower_kept(a, x),
            c.lower_kept(b, x),
        ensures
            c.advanced(a),
            c.instances_kept(a),
            c.lower_kept(a, x),
    {
        reveal(RenderEngine::advanced);
        reveal(RenderEngine::instances_kept);
        reveal(RenderEngine::lower_kept);
        lemma_prefix_chain(a.hooks@, b.hooks@, c.hooks@);
        lemma_layouts_grow(a.layouts, b.layouts, c.layouts);
        assert forall|k: ComponentKey| #[trigger] c.components.contains(k) && !a.components.contains(k)
            implies a.components.next() <= k.local.id by {
            if b.components.contains(k) {
                assert(b.components.contains(k) && !a.components.contains(k));
            } else {
                assert(c.components.contains(k) && !b.components.contains(k));
            }
        }
        assert forall|k: ComponentKey| #[trigger] c.components.contains(k) && a.components.contains(k)
            implies c.components.instance(k) == a.components.instance(k) by {
            a.components.lemma_live_was_minted(k);
            if !b.components.contains(k) {
                assert(c.components.contains(k) && !b.components.contains(k));
            }
            assert(b.components.contains(k) && a.components.contains(k));
            assert(c.components.contains(k) && b.components.contains(k));
        }
        assert forall|k: ComponentKey| #[trigger] a.components.contains(k) && k.local.id < x.local.id implies {
            &&& c.components.contains(k)
            &&& c.components.children_of(k) == a.components.children_of(k)
        } by {
            assert(b.components.contains(k) && k.local.id < x.local.id);
        }
    }

    proof fn lemma_minted_kept(a: &Self, b: &Self, k: Option<ComponentKey>)
        requires
            b.advanced(a),
            k is Some ==> a.components.minted(k->Some_0),
        ensures
            k is Some ==> b.components.minted(k->Some_0),
            b.components.next() >= a.components.next(),
    {
        reveal(RenderEngine::advanced);
    }

    /// A key minted before `b` that is unbound in `b` stays unbound in `c`.
    proof fn lemma_dropped_stay_unbound(a: &Self, b: &Self, c: &Self, key: ComponentKey, olds: Seq<ComponentKey>, placed: Seq<ComponentKey>, lo: int, hi: int)
        requires
            a.wf(),
            a.components.contains(key),
            olds == a.components.children_of(key),
            0 <= lo,
            b.advanced(a),
            c.advanced(b),
            forall|j: int| lo <= j < hi && j < olds.len() ==> (j < placed.len() && placed[j] == #[trigger] olds[j])
                || !b.components.contains(olds[j]),
        ensures
            forall|j: int| lo <= j < hi && j < olds.len() ==> (j < placed.len() && placed[j] == #[trigger] olds[j])
                || !c.components.contains(olds[j]),
    {
        reveal(RenderEngine::advanced);
        assert forall|j: int| lo <= j < hi && j < olds.len() implies (j < placed.len() && placed[j] == #[trigger] olds[j])
            || !c.components.contains(olds[j]) by {
            if !(j < placed.len() && placed[j] == olds[j]) {
                assert(olds.contains(olds[j]));
                a.components.lemma_child_of_live(key, olds[j]);
                assert(!b.components.contains(olds[j]));
                if c.components.contains(olds[j]) {
                    assert(c.components.contains(olds[j]) && !b.components.contains(olds[j]));
                }
            }
        }
    }

    /// Hooks recorded since `a` stay recorded as later steps run.
    proof fn lemma_hooks_kept(a: &Self, b: &Self, c: &Self, olds: Seq<ComponentKey>, placed: Seq<ComponentKey>, lo: int, hi: int)
        requires
            0 <= lo,
            b.advanced(a),
            c.advanced(b),
            forall|j: int| 0 <= j < placed.len() ==> olds.contains(#[trigger] placed[j])
                || mount_fired(b.hooks@, a.hooks@.len() as int, b.hooks@.len() as int, placed[j]),
            forall|j: int| lo <= j < hi && j < olds.len() ==> (j < placed.len() && placed[j] == #[trigger] olds[j])
                || unmount_fired(b.hooks@, a.hooks@.len() as int, b.hooks@.len() as int, olds[j]),
        ensures
            forall|j: int| 0 <= j < placed.len() ==> olds.contains(#[trigger] placed[j])
                || mount_fired(c.hooks@, a.hooks@.len() as int, c.hooks@.len() as int, placed[j]),
            forall|j: int| lo <= j < hi && j < olds.len() ==> (j < placed.len() && placed[j] == #[trigger] olds[j])
                || unmount_fired(c.hooks@, a.hooks@.len() as int, c.hooks@.len() as int, olds[j]),
    {
        reveal(RenderEngine::advanced);
        assert forall|j: int| 0 <= j < placed.len() implies olds.contains(#[trigger] placed[j])
            || mount_fired(c.hooks@, a.hooks@.len() as int, c.hooks@.len() as int, placed[j]) by {
            if !olds.contains(placed[j]) {
                lemma_fired_grows(b.hooks@, c.hooks@, a.hooks@.len() as int, b.hooks@.len() as int, placed[j]);
            }
        }
        assert forall|j: int| lo <= j < hi && j < olds.len() implies (j < placed.len() && placed[j] == #[trigger] olds[j])
            || unmount_fired(c.hooks@, a.hooks@.len() as int, c.hooks@.len() as int, olds[j]) by {
            if !(j < placed.len() && placed[j] == olds[j]) {
                lemma_unmount_fired_grows(b.hooks@, c.hooks@, a.hooks@.len() as int, b.hooks@.len() as int, olds[j]);
            }
        }
    }

    proof fn lemma_advanced_trans(a: &Self, b: &Self, c: &Self)
        requires
            b.advanced(a),
            c.advanced(b),
        ensures
            c.advanced(a),
    {
        reveal(RenderEngine::advanced);
        lemma_prefix_chain(a.hooks@, b.hooks@, c.hooks@);
        lemma_layouts_grow(a.layouts, b.layouts, c.layouts);
        assert forall|k: ComponentKey| #[trigger] c.components.contains(k) && !a.components.contains(k)
            implies a.components.next() <= k.local.id by {
            if b.components.contains(k) {
                assert(b.components.contains(k) && !a.components.contains(k));
            } else {
                assert(c.components.contains(k) && !b.components.contains(k));
            }
        }
    }

    proof fn lemma_lower_weaken(a: &Self, b: &Self, x: ComponentKey, y: ComponentKey)
        requires
            b.lower_kept(a, x),
            y.local.id <= x.local.id,
        ensures
            b.lower_kept(a, y),
    {
        reveal(RenderEngine::lower_kept);
        assert forall|k: ComponentKey| #[trigger] a.components.contains(k) && k.local.id < y.local.id implies {
            &&& b.components.contains(k)
            &&& b.components.children_of(k) == a.components.children_of(k)
        } by {
            assert(a.components.contains(k) && k.local.id < x.local.id);
        }
    }

    /// After a position of `key`'s children is settled with `x`: the settled
    /// keys stay apart from the old children still to come, and, when every
    /// new child is a structural node, each settled key carries its node's tag.
    proof fn lemma_after_push(
        &self,
        s1: &Self,
        old: &Self,
        key: ComponentKey,
        olds: Seq<ComponentKey>,
        placed: Seq<ComponentKey>,
        news: Seq<RSX<C::Props>>,
        i: int,
    )
        requires
            old.wf(),
            s1.wf(),
            self.wf(),
            old.components.contains(key),
            s1.components.contains(key),
            self.components.contains(key),
            olds == old.components.children_of(key),
            olds.no_duplicates(),
            0 <= i < news.len(),
            placed.len() >= 1,
            s1.components.children_of(key) == placed.drop_last() + suffix(olds, i),
            self.components.children_of(key) == placed + suffix(olds, i + 1),
            forall|j: int| 0 <= j < placed.len() - 1 ==> !suffix(olds, i).contains(#[trigger] placed[j]),
            (i < olds.len() && placed.last() == olds[i]) || old.components.next() <= placed.last().local.id,
            self.instances_kept(s1),
            all_nodes(news) ==> placed.len() - 1 == i,
            all_nodes(news) ==> forall|j: int| 0 <= j < i ==> s1.components.instance(#[trigger] placed[j]).tag@ == news[j]->VirtualNode_0.tag@,
            all_nodes(news) ==> self.components.instance(placed.last()).tag@ == news[i]->VirtualNode_0.tag@
                || (s1.components.contains(placed.last()) && s1.components.instance(placed.last()).tag@ == news[i]->VirtualNode_0.tag@),
        ensures
            forall|j: int| 0 <= j < placed.len() ==> !suffix(olds, i + 1).contains(#[trigger] placed[j]),
            all_nodes(news) ==> forall|j: int| 0 <= j < i + 1 ==> self.components.instance(#[trigger] placed[j]).tag@ == news[j]->VirtualNode_0.tag@,
    {
        reveal(RenderEngine::instances_kept);
        let x = placed.last();
        lemma_suffix_subset(olds, i);
        assert forall|j: int| 0 <= j < placed.len() implies !suffix(olds, i + 1).contains(#[trigger] placed[j]) by {
            if j < placed.len() - 1 {
                if suffix(olds, i + 1).contains(placed[j]) {
                    assert(suffix(olds, i).contains(placed[j]));
                }
            } else {
                if suffix(olds, i + 1).contains(x) {
                    let t = suffix(olds, i + 1);
                    let m = choose|m: int| 0 <= m < t.len() && t[m] == x;
                    assert(olds[i + 1 + m] == x);
                    if i < olds.len() && x == olds[i] {
                        assert(olds[i + 1 + m] == olds[i]);
                    } else {
                        assert(olds.contains(x));
                        old.components.lemma_child_of_live(key, x);
                        old.components.lemma_live_was_minted(x);
                    }
                }
            }
        }
        if all_nodes(news) {
            assert forall|j: int| 0 <= j < i + 1 implies self.components.instance(#[trigger] placed[j]).tag@ == news[j]->VirtualNode_0.tag@ by {
                assert(self.components.children_of(key)[j] == placed[j]);
                assert(self.components.children_of(key).contains(placed[j]));
                self.components.lemma_child_of_live(key, placed[j]);
                if j < i {
                    assert(s1.components.children_of(key)[j] == placed[j]);
                    assert(s1.components.children_of(key).contains(placed[j]));
                    s1.components.lemma_child_of_live(key, placed[j]);
                    assert(self.components.contains(placed[j]) && s1.components.contains(placed[j]));
                } else {
                    if s1.components.contains(x) {
                        assert(self.components.contains(x) && s1.components.contains(x));
                    }
                }
            }
        }
    }

    /// At every settled position whose old child had another tag than the
    /// new node, the settled key is fresh and carries the new tag.
    #[verifier::opaque]
    spec fn changed_fresh(&self, old: &Self, olds: Seq<ComponentKey>, news: Seq<RSX<C::Props>>, placed: Seq<ComponentKey>) -> bool {
        forall|j: int| 0 <= j < placed.len() && j < olds.len() && news[j] is VirtualNode
            && old.components.instance(olds[j]).tag@ != news[j]->VirtualNode_0.tag@ ==> {
            &&& !old.components.minted(#[trigger] placed[j])
            &&& self.components.instance(placed[j]).tag@ == news[j]->VirtualNode_0.tag@
        }
    }

    /// `changed_fresh` survives a step that settles at most one more key.
    proof fn lemma_changed_step(
        &self,
        s1: &Self,
        old: &Self,
        key: ComponentKey,
        olds: Seq<ComponentKey>,
        news: Seq<RSX<C::Props>>,
        prev: Seq<ComponentKey>,
        placed: Seq<ComponentKey>,
        r1: Seq<ComponentKey>,
        r2: Seq<ComponentKey>,
    )
        requires
            s1.wf(),
            self.wf(),
            s1.components.contains(key),
            self.components.contains(key),
            s1.components.children_of(key) == prev + r1,
            self.components.children_of(key) == placed + r2,
            prev.len() <= placed.len() <= prev.len() + 1,
            placed.len() <= news.len(),
            forall|j: int| 0 <= j < prev.len() ==> placed[j] == prev[j],
            self.instances_kept(s1),
            s1.changed_fresh(old, olds, news, prev),
            placed.len() == prev.len() + 1 && prev.len() < olds.len() && prev.len() < news.len()
                && news[prev.len() as int] is VirtualNode && old.components.instance(olds[prev.len() as int]).tag@
                != news[prev.len() as int]->VirtualNode_0.tag@ ==> !old.components.minted(placed[prev.len() as int])
                && self.components.instance(placed[prev.len() as int]).tag@ == news[prev.len() as int]->VirtualNode_0.tag@,
        ensures
            self.changed_fresh(old, olds, news, placed),
    {
        reveal(RenderEngine::changed_fresh);
        self.lemma_prefix_instances(s1, key, prev, placed, r1, r2);
        assert forall|j: int| 0 <= j < placed.len() && j < olds.len() && news[j] is VirtualNode
            && old.components.instance(olds[j]).tag@ != news[j]->VirtualNode_0.tag@ implies {
            &&& !old.components.minted(#[trigger] placed[j])
            &&& self.components.instance(placed[j]).tag@ == news[j]->VirtualNode_0.tag@
        } by {
            if j < prev.len() {
                assert(placed[j] == prev[j]);
                assert(self.components.instance(prev[j]) == s1.components.instance(prev[j]));
                assert(!old.components.minted(prev[j]));
            }
        }
    }

    /// Keys settled earlier stay live across a step and keep their instances.
    proof fn lemma_prefix_instances(
        &self,
        s1: &Self,
        key: ComponentKey,
        prev: Seq<ComponentKey>,
        placed: Seq<ComponentKey>,
        r1: Seq<ComponentKey>,
        r2: Seq<ComponentKey>,
    )
        requires
            s1.wf(),
            self.wf(),
            s1.components.contains(key),
            self.components.contains(key),
            s1.components.children_of(key) == prev + r1,
            self.components.children_of(key) == placed + r2,
            prev.len() <= placed.len(),
            forall|j: int| 0 <= j < prev.len() ==> placed[j] == prev[j],
            self.instances_kept(s1),
        ensures
            forall|j: int| 0 <= j < prev.len() ==> {
                &&& self.components.contains(#[trigger] prev[j])
                &&& self.components.instance(prev[j]) == s1.components.instance(prev[j])
            },
    {
        reveal(RenderEngine::instances_kept);
        assert forall|j: int| 0 <= j < prev.len() implies {
            &&& self.components.contains(#[trigger] prev[j])
            &&& self.components.instance(prev[j]) == s1.components.instance(prev[j])
        } by {
            assert(s1.components.children_of(key)[j] == prev[j]);
            assert(s1.components.children_of(key).contains(prev[j]));
            s1.components.lemma_child_of_live(key, prev[j]);
            assert(self.components.children_of(key)[j] == prev[j]);
            assert(self.components.children_of(key).contains(prev[j]));
            self.components.lemma_child_of_live(key, prev[j]);
            assert(self.components.contains(prev[j]) && s1.components.contains(prev[j]));
        }
    }

    /// After an old child past the new ones is unmounted, the settled keys
    /// are live and keep their tags.
    proof fn lemma_after_trim(
        &self,
        s1: &Self,
        key: ComponentKey,
        olds: Seq<ComponentKey>,
        placed: Seq<ComponentKey>,
        news: Seq<RSX<C::Props>>,
        i: int,
    )
        requires
            s1.wf(),
            self.wf(),
            s1.components.contains(key),
            self.components.contains(key),
            0 <= i < olds.len(),
            s1.components.children_of(key) == placed + suffix(olds, i),
            self.components.children_of(key) == placed + suffix(olds, i + 1),
            forall|j: int| 0 <= j < placed.len() ==> !suffix(olds, i).contains(#[trigger] placed[j]),
            self.instances_kept(s1),
            all_nodes(news) ==> placed.len() == news.len(),
            all_nodes(news) ==> forall|j: int| 0 <= j < news.len() ==> s1.components.instance(#[trigger] placed[j]).tag@ == news[j]->VirtualNode_0.tag@,
        ensures
            forall|j: int| 0 <= j < placed.len() ==> !suffix(olds, i + 1).contains(#[trigger] placed[j]),
            all_nodes(news) ==> forall|j: int| 0 <= j < news.len() ==> self.components.instance(#[trigger] placed[j]).tag@ == news[j]->VirtualNode_0.tag@,
    {
        reveal(RenderEngine::instances_kept);
        lemma_suffix_subset(olds, i);
        assert forall|j: int| 0 <= j < placed.len() implies !suffix(olds, i + 1).contains(#[trigger] placed[j]) by {
            if suffix(olds, i + 1).contains(placed[j]) {
                assert(suffix(olds, i).contains(placed[j]));
            }
        }
        if all_nodes(news) {
            assert forall|j: int| 0 <= j < news.len() implies self.components.instance(#[trigger] placed[j]).tag@ == news[j]->VirtualNode_0.tag@ by {
                assert(self.components.children_of(key)[j] == placed[j]);
                assert(self.components.children_of(key).contains(placed[j]));
                self.components.lemma_child_of_live(key, placed[j]);
                assert(s1.components.children_of(key)[j] == placed[j]);
                assert(s1.components.children_of(key).contains(placed[j]));
                s1.components.lemma_child_of_live(key, placed[j]);
                assert(self.components.contains(placed[j]) && s1.components.contains(placed[j]));
            }
        }
    }

    /// Unmounts `c`, which stands between `pre` and `post` among `key`'s
    /// children, and unlinks its layout nodes from `anchor`'s.
    fn unmount_child(
        &mut self,
        key: ComponentKey,
        c: ComponentKey,
        anchor: Option<ComponentKey>,
        Ghost(pre): Ghost<Seq<ComponentKey>>,
        Ghost(post): Ghost<Seq<ComponentKey>>,
    ) -> (r: Result<(), RenderEngineError>)
        requires
            old(self).wf(),
            anchor is Some ==> old(self).components.minted(anchor->Some_0),
            old(self).components.contains(key),
            old(self).components.children_of(key) == pre + seq![c] + post,
            !pre.contains(c),
            !post.contains(c),
        ensures
            r is Ok && anchor is Some && old(self).components.contains(anchor->Some_0) && anchor->Some_0.local.id < c.local.id
                && old(self).layout_handle(anchor->Some_0) is Some ==> forall|l: LayoutNode|
                #[trigger] native_tops(old(self).components, c).contains(l) ==> !final(self).layouts.children_of(
                old(self).layout_handle(anchor->Some_0)->Some_0,
            ).contains(l),
            final(self).wf(),
            final(self).advanced(old(self)),
            final(self).removals_ok(old(self)),
            anchor is Some ==> final(self).components.minted(anchor->Some_0),
            r is Ok,
            r is Ok ==> {
                &&& final(self).components.contains(key)
                &&& final(self).lower_kept(old(self), key)
                &&& final(self).instances_kept(old(self))
                &&& final(self).components.children_of(key) == pre + post
                &&& !final(self).components.contains(c)
                &&& forall|d: ComponentKey, n: nat| #[trigger] below(old(self).components, c, d, n) ==> !final(self).components.contains(d)
                &&& unmount_fired(final(self).hooks@, old(self).hooks@.len() as int, final(self).hooks@.len() as int, c)
            },
    {
        proof {
            self.lemma_advanced_refl();
            old(self).components.lemma_live_was_minted(key);
            assert(old(self).components.children_of(key).contains(c)) by {
                assert(old(self).components.children_of(key)[pre.len() as int] == c);
            }
            old(self).components.lemma_child_of_live(key, c);
        }
        let ghost s0 = *self;
        let res = self.unmount_component_tree(c);
        proof {
            RenderEngine::lemma_advance(&s0, &s0, self);
        }
        let detached = res?;
        proof {
            RenderEngine::lemma_instances_step(&s0, &s0, self);
            assert forall|k: ComponentKey| #[trigger] s0.components.contains(k) && k.local.id < key.local.id implies {
                &&& self.components.contains(k)
                &&& self.components.children_of(k) == s0.components.children_of(k)
            } by {
                assert(!s0.components.children_of(k).contains(c)) by {
                    if s0.components.children_of(k).contains(c) {
                        s0.components.lemma_child_of_live(k, c);
                        let ps = s0.components.parents_of(c);
                        let a = choose|a: int| 0 <= a < ps.len() && ps[a] == k;
                        let b = choose|b: int| 0 <= b < ps.len() && ps[b] == key;
                    }
                }
                crate::storage::lemma_without_absent(s0.components.children_of(k), c);
            }
            RenderEngine::lemma_lower_step(&s0, &s0, self, key);
            crate::storage::lemma_without_concat(pre, seq![c] + post, c);
            crate::storage::lemma_without_concat(seq![c], post, c);
            crate::storage::lemma_without_absent(pre, c);
            crate::storage::lemma_without_absent(post, c);
            let one = seq![c];
            assert(one.len() == 1 && one.last() == c);
            assert(one.drop_last() =~= Seq::<ComponentKey>::empty());
            assert(without(one.drop_last(), c) =~= Seq::<ComponentKey>::empty());
            assert(without(one, c) =~= Seq::<ComponentKey>::empty());
            assert(pre + seq![c] + post =~= pre + (seq![c] + post));
            assert(self.components.children_of(key) =~= pre + post);
        }
        let ghost s1 = *self;
        self.detach_layout_nodes(anchor, &detached);
        proof {
            if anchor is Some && s0.components.contains(anchor->Some_0) && anchor->Some_0.local.id < c.local.id
                && s0.layout_handle(anchor->Some_0) is Some {
                let a = anchor->Some_0;
                assert(s1.components.contains(a));
                assert(s1.components.instance(a) == s0.components.instance(a));
                assert(s1.layout_handle(a) == s0.layout_handle(a));
                assert forall|l: LayoutNode| #[trigger] native_tops(s0.components, c).contains(l) implies !self.layouts.children_of(
                    s0.layout_handle(a)->Some_0).contains(l) by {
                    let j = choose|j: int| 0 <= j < detached@.len() && detached@[j] == l;
                }
            }
            assert(self.hooks@.subrange(0, s1.hooks@.len() as int) =~= s1.hooks@);
            s1.lemma_advanced_refl();
            RenderEngine::lemma_advance(&s1, &s1, self);
            RenderEngine::lemma_removals_same(&s1, self);
            RenderEngine::lemma_removals_trans(&s0, &s1, self);
            assert(self.hooks@.subrange(0, s1.hooks@.len() as int) =~= s1.hooks@);
            RenderEngine::lemma_advance(&s0, &s1, self);
            RenderEngine::lemma_instances_step(&s0, &s1, self);
            RenderEngine::lemma_lower_step(&s0, &s1, self, key);
        }
        Ok(())
    }

    /// Mounts a fresh subtree for `n` and puts it at `index` among `key`'s
    /// children.
    fn mount_child_at(&mut self, key: ComponentKey, n: &VirtualNode<C::Props>, index: usize, anchor: Option<ComponentKey>) -> (r: Result<ComponentKey, RenderEngineError>)
        requires
            old(self).wf(),
            anchor is Some ==> old(self).components.minted(anchor->Some_0),
            old(self).components.contains(key),
            index <= old(self).components.children_of(key).len(),
        ensures
            r is Ok && anchor is Some && old(self).components.contains(anchor->Some_0) && old(self).layout_handle(anchor->Some_0) is Some
                ==> #[trigger] final(self).layouts.children_of(old(self).layout_handle(anchor->Some_0)->Some_0)
                == old(self).layouts.children_of(old(self).layout_handle(anchor->Some_0)->Some_0) + native_tops(final(self).components, r->Ok_0),
            final(self).wf(),
            final(self).advanced(old(self)),
            final(self).removals_ok(old(self)),
            anchor is Some ==> final(self).components.minted(anchor->Some_0),
            r is Err ==> capacity_error(r->Err_0),
            r is Err && r->Err_0 == RenderEngineError::KeysExhausted ==> final(self).exhausted(),
            r is Ok ==> {
                let nk = r->Ok_0;
                &&& final(self).components.contains(key)
                &&& final(self).lower_kept(old(self), key)
                &&& final(self).instances_kept(old(self))
                &&& final(self).components.children_of(key) == old(self).components.children_of(key).insert(index as int, nk)
                &&& !old(self).components.contains(nk)
                &&& mount_fired(final(self).hooks@, old(self).hooks@.len() as int, final(self).hooks@.len() as int, nk)
                &&& final(self).components.instance(nk).tag@ == n.tag@
                &&& old(self).components.next() <= nk.local.id
            },
    {
        proof {
            self.lemma_advanced_refl();
            old(self).components.lemma_live_was_minted(key);
        }
        let ghost s0 = *self;
        let res = self.mount_component_tree(n, MAX_DEPTH);
        proof {
            RenderEngine::lemma_advance(&s0, &s0, self);
        }
        proof {
            RenderEngine::lemma_removals_grow(&s0, self);
        }
        let nk = res?;
        proof {
            RenderEngine::lemma_instances_step(&s0, &s0, self);
            RenderEngine::lemma_lower_step(&s0, &s0, self, key);
            reveal(RenderEngine::advanced);
        }
        let ghost s1 = *self;
        let placed = self.place_new_child(key, index, nk, anchor);
        proof {
            assert(self.hooks@.subrange(0, s1.hooks@.len() as int) =~= s1.hooks@);
        }
        placed?;
        proof {
            assert forall|x: ComponentKey, y: ComponentKey| s1.components.contains(x) && #[trigger] s1.components.children_of(x).contains(y)
                implies self.components.children_of(x).contains(y) by {
                if x == key {
                    let l = s1.components.children_of(key);
                    let k = choose|k: int| 0 <= k < l.len() && l[k] == y;
                    if k < index { assert(self.components.children_of(key)[k] == y); } else { assert(self.components.children_of(key)[k + 1] == y); }
                }
            }
            RenderEngine::lemma_removals_grow(&s1, self);
            RenderEngine::lemma_removals_trans(&s0, &s1, self);
        }
        proof {
            assert(self.hooks@.subrange(0, s1.hooks@.len() as int) =~= s1.hooks@);
            RenderEngine::lemma_advance(&s0, &s1, self);
            RenderEngine::lemma_instances_step(&s0, &s1, self);
            RenderEngine::lemma_lower_step(&s0, &s1, self, key);
        }
        proof {
            if old(self).components.contains(nk) {
                old(self).components.lemma_live_was_minted(nk);
            }
        }
        Ok(nk)
    }

    /// Diffs the children of `key` against `news`, position by position: an
    /// old child with the new node's tag is updated in place; one with
    /// another tag is unmounted and a fresh subtree for the new node mounted
    /// at its position; new nodes past the old children are mounted and
    /// appended; old children past the new ones are unmounted. `anchor` is
    /// the nearest natively backed component at or above `key`, whose layout
    /// node gains and loses the layout nodes of mounted and unmounted subtrees.
    /// New children of a component without a layout node are thus linked
    /// under its nearest natively backed ancestor, the same pass-through that
    /// mounting applies, so the layout tree never loses a native descendant.
    /// A new child tagged as a fragment is mounted like any other node: only
    /// a fragment that a component renders, or that a root is handed, is
    /// hoisted.
    #[verifier::spinoff_prover]
    #[verifier::rlimit(60)]
    fn diff_children(&mut self, key: ComponentKey, news: &Vec<RSX<C::Props>>, anchor: Option<ComponentKey>) -> (r: Result<(), RenderEngineError>)
        requires
            old(self).wf(),
            anchor is Some ==> old(self).components.minted(anchor->Some_0),
        ensures
            final(self).wf(),
            final(self).advanced(old(self)),
            final(self).removals_ok(old(self)),
            old(self).components.contains(key) && children_match(old(self).components, old(self).components.children_of(key), news@)
                ==> *final(self) == *old(self) && r is Ok,
            !old(self).components.contains(key) ==> r == Err::<(), RenderEngineError>(RenderEngineError::InvalidComponentKey(key))
                && *final(self) == *old(self),
            r is Err ==> capacity_error(r->Err_0) || !old(self).components.contains(key),
            r is Err && r->Err_0 == RenderEngineError::KeysExhausted ==> final(self).exhausted(),
            old(self).components.contains(key) && no_nodes(news@) ==> r is Ok,
            r is Ok ==> {
                let olds = old(self).components.children_of(key);
                let kids = final(self).components.children_of(key);
                &&& news@.len() == 0 ==> kids.len() == 0
                &&& forall|j: int| 0 <= j < olds.len() && j < news@.len() && (news@[j] is VirtualNode
                    ==> old(self).components.instance(olds[j]).tag@ == news@[j]->VirtualNode_0.tag@)
                    ==> kids[j] == #[trigger] olds[j]
                &&& forall|c: ComponentKey| #[trigger] olds.contains(c) && !kids.contains(c) ==> !final(self).components.contains(c)
                &&& forall|c: ComponentKey| #[trigger] kids.contains(c) && !olds.contains(c) ==> !old(self).components.minted(c)
                &&& forall|c: ComponentKey| #[trigger] kids.contains(c) && !olds.contains(c) ==> mount_fired(
                    final(self).hooks@, old(self).hooks@.len() as int, final(self).hooks@.len() as int, c)
                &&& forall|c: ComponentKey| #[trigger] olds.contains(c) && !kids.contains(c) ==> unmount_fired(
                    final(self).hooks@, old(self).hooks@.len() as int, final(self).hooks@.len() as int, c)
                &&& forall|j: int| 0 <= j < olds.len() && j < news@.len() && news@[j] is VirtualNode
                    && old(self).components.instance(olds[j]).tag@ != news@[j]->VirtualNode_0.tag@ ==> {
                    &&& j < kids.len()
                    &&& !old(self).components.minted(#[trigger] kids[j])
                    &&& final(self).components.instance(kids[j]).tag@ == news@[j]->VirtualNode_0.tag@
                    &&& !final(self).components.contains(olds[j])
                }
            },
            r is Ok ==> {
                &&& final(self).components.contains(key)
                &&& final(self).lower_kept(old(self), key)
                &&& final(self).instances_kept(old(self))
                &&& all_nodes(news@) ==> {
                    &&& final(self).components.children_of(key).len() == news@.len()
                    &&& forall|j: int| 0 <= j < news@.len() ==> final(self).components.instance(
                        #[trigger] final(self).components.children_of(key)[j],
                    ).tag@ == news@[j]->VirtualNode_0.tag@
                }
            },
        decreases news,
    {
        proof {
            self.lemma_advanced_refl();
            self.lemma_removals_refl();
        }
        let olds = self.components.children(key)?;
        let ghost matching = children_match(old(self).components, old(self).components.children_of(key), news@);
        let ghost mut placed: Seq<ComponentKey> = Seq::empty();
        proof {
            old(self).components.lemma_live_was_minted(key);
            assert(olds@.no_duplicates());
            assert(placed + suffix(olds@, 0) =~= olds@);
        }
        proof {
            reveal(RenderEngine::changed_fresh);
        }
        let mut i: usize = 0;
        while i < news.len()
            invariant
                old(self).wf(),
                self.wf(),
                anchor is Some ==> self.components.minted(anchor->Some_0),
                old(self).components.contains(key),
                olds@ == old(self).components.children_of(key),
                olds@.no_duplicates(),
                0 <= i <= news@.len(),
                self.advanced(old(self)),
                self.lower_kept(old(self), key),
                self.instances_kept(old(self)),
                matching == children_match(old(self).components, old(self).components.children_of(key), news@),
                matching ==> *self == *old(self),
                self.components.contains(key),
                self.components.children_of(key) == placed + suffix(olds@, i as int),
                i <= olds@.len() ==> placed.len() == i,
                placed.len() <= i,
                forall|j: int| 0 <= j < placed.len() ==> !suffix(olds@, i as int).contains(#[trigger] placed[j]),
                all_nodes(news@) ==> placed.len() == i,
                all_nodes(news@) ==> forall|j: int| 0 <= j < i ==> self.components.instance(#[trigger] placed[j]).tag@ == news@[j]->VirtualNode_0.tag@,
                anchor is Some ==> old(self).components.minted(anchor->Some_0),
                placed.len() >= (if i < olds@.len() { i as int } else { olds@.len() as int }),
                forall|j: int| 0 <= j < placed.len() && j < olds@.len() && (news@[j] is VirtualNode
                    ==> old(self).components.instance(olds@[j]).tag@ == news@[j]->VirtualNode_0.tag@) ==> placed[j] == #[trigger] olds@[j],
                forall|j: int| 0 <= j < placed.len() && j < olds@.len() ==> (j < placed.len() && placed[j] == #[trigger] olds@[j])
                    || !self.components.contains(olds@[j]),
                forall|j: int| 0 <= j < placed.len() ==> olds@.contains(#[trigger] placed[j]) || old(self).components.next() <= placed[j].local.id,
                forall|j: int| 0 <= j < placed.len() ==> olds@.contains(#[trigger] placed[j])
                    || mount_fired(self.hooks@, old(self).hooks@.len() as int, self.hooks@.len() as int, placed[j]),
                forall|j: int| 0 <= j < placed.len() && j < olds@.len() ==> (j < placed.len() && placed[j] == #[trigger] olds@[j])
                    || unmount_fired(self.hooks@, old(self).hooks@.len() as int, self.hooks@.len() as int, olds@[j]),
                self.changed_fresh(old(self), olds@, news@, placed),
                self.removals_ok(old(self)),
            decreases news@.len() - i,
        {
            let t = &news[i];
            let ghost s1 = *self;
            if i < olds.len() {
                let c = olds[i];
                proof {
                    lemma_suffix_step(olds@, i as int);
                    assert(self.components.children_of(key)[placed.len() as int] == c);
                    self.components.lemma_child_of_live(key, c);
                    old(self).components.lemma_child_of_live(key, c);
                    lemma_no_dup_suffix(olds@, i as int);
                    assert(!placed.contains(c)) by {
                        if placed.contains(c) {
                            let j = choose|j: int| 0 <= j < placed.len() && placed[j] == c;
                            assert(suffix(olds@, i as int)[0] == c);
                        }
                    }
                }
                let replacement: Option<&VirtualNode<C::Props>> = match t {
                    RSX::VirtualNode(n) => match self.components.get(c) {
                        Ok(inst) => if inst.tag == n.tag {
                            None
                        } else {
                            Some(n)
                        },
                        Err(_) => None,
                    },
                    _ => None,
                };
                if replacement.is_none() {
                    proof {
                        reveal(RenderEngine::instances_kept);
                        assert(s1.components.contains(c) && old(self).components.contains(c));
                        assert(s1.components.instance(c) == old(self).components.instance(c));
                    }
                    assert(matching ==> tree_matches(old(self).components, c, news@[i as int]) && old(self).components.contains(c)) by {
                        if matching {
                            assert(olds@[i as int] == c);
                        }
                    }
                    let res = self.diff_node(c, t, anchor);
                    proof {
                        RenderEngine::lemma_advanced_trans(old(self), &s1, self);
                        RenderEngine::lemma_removals_trans(old(self), &s1, self);
                    }
                    res?;
                    proof {
                        RenderEngine::lemma_lower_weaken(&s1, self, c, key);
                        RenderEngine::lemma_steps_trans(old(self), &s1, self, key);
                        reveal(RenderEngine::lower_kept);
                        assert(s1.components.contains(key) && key.local.id < c.local.id);
                        assert(self.components.children_of(key) == s1.components.children_of(key));
                        let prev = placed;
                        placed = placed.push(c);
                        assert(placed.drop_last() =~= prev);
                        assert(self.components.children_of(key) =~= placed + suffix(olds@, i + 1));
                        self.lemma_after_push(&s1, old(self), key, olds@, placed, news@, i as int);
                        RenderEngine::lemma_dropped_stay_unbound(old(self), &s1, self, key, olds@, placed, 0, prev.len() as int);
                        assert(olds@.contains(olds@[i as int]));
                        RenderEngine::lemma_hooks_kept(old(self), &s1, self, olds@, prev, 0, prev.len() as int);
                        assert forall|j: int| 0 <= j < placed.len() implies olds@.contains(#[trigger] placed[j])
                            || mount_fired(self.hooks@, old(self).hooks@.len() as int, self.hooks@.len() as int, placed[j]) by {
                            if j < prev.len() { assert(placed[j] == prev[j]); }
                        }
                        self.lemma_changed_step(&s1, old(self), key, olds@, news@, prev, placed, suffix(olds@, i as int), suffix(olds@, i + 1));
                    }
                } else {
                    assert(!matching) by {
                        if matching {
                            assert(olds@[i as int] == c);
                        }
                    }
                    let n = replacement.unwrap();
                    proof {
                        reveal(RenderEngine::instances_kept);
                        assert(s1.components.contains(c) && old(self).components.contains(c));
                        assert(s1.components.instance(c) == old(self).components.instance(c));
                    }
                    proof {
                        assert(self.components.children_of(key) == placed + seq![c] + suffix(olds@, i + 1)) by {
                            assert(placed + seq![c] + suffix(olds@, i + 1) =~= placed + (seq![c] + suffix(olds@, i + 1)));
                        }
                    }
                    let res = self.unmount_child(key, c, anchor, Ghost(placed), Ghost(suffix(olds@, i + 1)));
                    proof {
                        RenderEngine::lemma_advanced_trans(old(self), &s1, self);
                        RenderEngine::lemma_removals_trans(old(self), &s1, self);
                    }
                    let ghost s2 = *self;
                    res?;
                    proof {
                        RenderEngine::lemma_steps_trans(old(self), &s1, self, key);
                    }
                    let res = self.mount_child_at(key, n, i, anchor);
                    proof {
                        RenderEngine::lemma_advanced_trans(old(self), &s2, self);
                        RenderEngine::lemma_removals_trans(old(self), &s2, self);
                    }
                    let nk = res?;
                    proof {
                        RenderEngine::lemma_minted_kept(old(self), &s2, None);
                        RenderEngine::lemma_steps_trans(old(self), &s2, self, key);
                        RenderEngine::lemma_steps_trans(&s1, &s2, self, key);
                        assert((placed + suffix(olds@, i + 1)).insert(i as int, nk) =~= placed.push(nk) + suffix(olds@, i + 1));
                        let prev = placed;
                        placed = placed.push(nk);
                        assert(placed.drop_last() =~= prev);
                        reveal(RenderEngine::instances_kept);
                        self.lemma_after_push(&s1, old(self), key, olds@, placed, news@, i as int);
                        RenderEngine::lemma_dropped_stay_unbound(old(self), &s1, self, key, olds@, placed, 0, prev.len() as int);
                        reveal(RenderEngine::advanced);
                        assert(!self.components.contains(c)) by {
                            old(self).components.lemma_live_was_minted(c);
                            if self.components.contains(c) {
                                assert(self.components.contains(c) && !s2.components.contains(c));
                            }
                        }
                        lemma_unmount_fired_grows(s2.hooks@, self.hooks@, s1.hooks@.len() as int, s2.hooks@.len() as int, c);
                        if old(self).components.minted(nk) {
                            assert(false);
                        }
                        self.lemma_changed_step(&s1, old(self), key, olds@, news@, prev, placed, suffix(olds@, i as int), suffix(olds@, i + 1));
                        RenderEngine::lemma_hooks_kept(old(self), &s1, self, olds@, prev, 0, prev.len() as int);
                        assert forall|j: int| 0 <= j < placed.len() implies olds@.contains(#[trigger] placed[j])
                            || mount_fired(self.hooks@, old(self).hooks@.len() as int, self.hooks@.len() as int, placed[j]) by {
                            if j < prev.len() { assert(placed[j] == prev[j]); } else {
                                let m = choose|m: int| s2.hooks@.len() <= m < self.hooks@.len() && self.hooks@[m] == Hook::DidMount(nk);
                            }
                        }
                        assert forall|j: int| 0 <= j < placed.len() && j < olds@.len() implies (j < placed.len() && placed[j] == #[trigger] olds@[j])
                            || unmount_fired(self.hooks@, old(self).hooks@.len() as int, self.hooks@.len() as int, olds@[j]) by {
                            if j < prev.len() { assert(placed[j] == prev[j]); } else {
                                let m = choose|m: int| s1.hooks@.len() <= m < self.hooks@.len() && self.hooks@[m] == Hook::WillUnmount(c);
                            }
                        }
                    }
                }
            } else if let RSX::VirtualNode(n) = t {
                assert(!matching) by {
                    if matching {
                        assert(news@[i as int] is VirtualNode);
                    }
                }
                proof {
                    assert(suffix(olds@, i as int) =~= Seq::<ComponentKey>::empty());
                    assert(self.components.children_of(key) =~= placed);
                }
                let len = match self.components.child_count(key) {
                    Ok(len) => len,
                    Err(e) => { return Err(e); },
                };
                let res = self.mount_child_at(key, n, len, anchor);
                proof {
                    RenderEngine::lemma_advanced_trans(old(self), &s1, self);
                        RenderEngine::lemma_removals_trans(old(self), &s1, self);
                }
                let nk = res?;
                proof {
                    RenderEngine::lemma_minted_kept(old(self), &s1, None);
                    RenderEngine::lemma_steps_trans(old(self), &s1, self, key);
                    assert(placed.insert(placed.len() as int, nk) =~= placed.push(nk));
                    let prev = placed;
                    placed = placed.push(nk);
                    assert(placed.drop_last() =~= prev);
                    assert(suffix(olds@, i + 1) =~= Seq::<ComponentKey>::empty());
                    assert(self.components.children_of(key) =~= placed + suffix(olds@, i + 1));
                    reveal(RenderEngine::instances_kept);
                    self.lemma_after_push(&s1, old(self), key, olds@, placed, news@, i as int);
                    RenderEngine::lemma_dropped_stay_unbound(old(self), &s1, self, key, olds@, placed, 0, prev.len() as int);
                    RenderEngine::lemma_hooks_kept(old(self), &s1, self, olds@, prev, 0, prev.len() as int);
                    self.lemma_changed_step(&s1, old(self), key, olds@, news@, prev, placed, suffix(olds@, i as int), suffix(olds@, i + 1));
                    reveal(RenderEngine::advanced);
                    assert forall|j: int| 0 <= j < placed.len() implies olds@.contains(#[trigger] placed[j])
                        || mount_fired(self.hooks@, old(self).hooks@.len() as int, self.hooks@.len() as int, placed[j]) by {
                        if j < prev.len() { assert(placed[j] == prev[j]); } else {
                            let m = choose|m: int| s1.hooks@.len() <= m < self.hooks@.len() && self.hooks@[m] == Hook::DidMount(nk);
                        }
                    }
                    assert forall|j: int| 0 <= j < placed.len() && j < olds@.len() implies (j < placed.len() && placed[j] == #[trigger] olds@[j])
                        || unmount_fired(self.hooks@, old(self).hooks@.len() as int, self.hooks@.len() as int, olds@[j]) by {
                        if j < prev.len() { assert(placed[j] == prev[j]); }
                    }
                }
            }
            proof {
                RenderEngine::lemma_minted_kept(old(self), self, anchor);
            }
            i = i + 1;
        }
        assert(matching ==> olds@.len() <= news@.len());
        while i < olds.len()
            invariant
                old(self).wf(),
                self.wf(),
                anchor is Some ==> self.components.minted(anchor->Some_0),
                old(self).components.contains(key),
                olds@ == old(self).components.children_of(key),
                olds@.no_duplicates(),
                news@.len() <= i,
                self.advanced(old(self)),
                self.lower_kept(old(self), key),
                self.instances_kept(old(self)),
                matching == children_match(old(self).components, old(self).components.children_of(key), news@),
                matching ==> *self == *old(self),
                matching ==> i >= olds@.len(),
                self.components.contains(key),
                self.components.children_of(key) == placed + suffix(olds@, i as int),
                forall|j: int| 0 <= j < placed.len() ==> !suffix(olds@, i as int).contains(#[trigger] placed[j]),
                all_nodes(news@) ==> placed.len() == news@.len(),
                all_nodes(news@) ==> forall|j: int| 0 <= j < news@.len() ==> self.components.instance(#[trigger] placed[j]).tag@ == news@[j]->VirtualNode_0.tag@,
                placed.len() <= news@.len(),
                placed.len() >= (if news@.len() < olds@.len() { news@.len() as int } else { olds@.len() as int }),
                forall|j: int| 0 <= j < placed.len() && j < olds@.len() && (news@[j] is VirtualNode
                    ==> old(self).components.instance(olds@[j]).tag@ == news@[j]->VirtualNode_0.tag@) ==> placed[j] == #[trigger] olds@[j],
                forall|j: int| 0 <= j < i && j < olds@.len() ==> (j < placed.len() && placed[j] == #[trigger] olds@[j])
                    || !self.components.contains(olds@[j]),
                forall|j: int| 0 <= j < placed.len() ==> olds@.contains(#[trigger] placed[j]) || old(self).components.next() <= placed[j].local.id,
                forall|j: int| 0 <= j < placed.len() ==> olds@.contains(#[trigger] placed[j])
                    || mount_fired(self.hooks@, old(self).hooks@.len() as int, self.hooks@.len() as int, placed[j]),
                forall|j: int| 0 <= j < i && j < olds@.len() ==> (j < placed.len() && placed[j] == #[trigger] olds@[j])
                    || unmount_fired(self.hooks@, old(self).hooks@.len() as int, self.hooks@.len() as int, olds@[j]),
                self.changed_fresh(old(self), olds@, news@, placed),
                self.removals_ok(old(self)),
            decreases olds@.len() - i,
        {
            let c = olds[i];
            let ghost s1 = *self;
            proof {
                lemma_suffix_step(olds@, i as int);
                lemma_no_dup_suffix(olds@, i as int);
                assert(!placed.contains(c)) by {
                    if placed.contains(c) {
                        let j = choose|j: int| 0 <= j < placed.len() && placed[j] == c;
                        assert(suffix(olds@, i as int)[0] == c);
                    }
                }
                assert(self.components.children_of(key) == placed + seq![c] + suffix(olds@, i + 1)) by {
                    assert(placed + seq![c] + suffix(olds@, i + 1) =~= placed + (seq![c] + suffix(olds@, i + 1)));
                }
            }
            let res = self.unmount_child(key, c, anchor, Ghost(placed), Ghost(suffix(olds@, i + 1)));
            proof {
                RenderEngine::lemma_advanced_trans(old(self), &s1, self);
                        RenderEngine::lemma_removals_trans(old(self), &s1, self);
            }
            res?;
            proof {
                RenderEngine::lemma_steps_trans(old(self), &s1, self, key);
                self.lemma_after_trim(&s1, key, olds@, placed, news@, i as int);
                RenderEngine::lemma_dropped_stay_unbound(old(self), &s1, self, key, olds@, placed, 0, i as int);
                RenderEngine::lemma_hooks_kept(old(self), &s1, self, olds@, placed, 0, i as int);
                self.lemma_changed_step(&s1, old(self), key, olds@, news@, placed, placed, suffix(olds@, i as int), suffix(olds@, i + 1));
                reveal(RenderEngine::advanced);
                let m = choose|m: int| s1.hooks@.len() <= m < self.hooks@.len() && self.hooks@[m] == Hook::WillUnmount(c);
                assert(self.hooks@[m] == Hook::WillUnmount(olds@[i as int]));
            }
            i = i + 1;
        }
        proof {
            assert(suffix(olds@, i as int) =~= Seq::<ComponentKey>::empty());
            assert(placed + suffix(olds@, i as int) =~= placed);
            let kids = self.components.children_of(key);
            assert forall|c: ComponentKey| #[trigger] olds@.contains(c) && !kids.contains(c) implies !self.components.contains(c) by {
                let j = choose|j: int| 0 <= j < olds@.len() && olds@[j] == c;
                if j < placed.len() && placed[j] == olds@[j] {
                    assert(kids[j] == c);
                }
            }
            assert forall|c: ComponentKey| #[trigger] kids.contains(c) && !olds@.contains(c) implies !old(self).components.minted(c) by {
                let j = choose|j: int| 0 <= j < kids.len() && kids[j] == c;
                assert(placed[j] == c);
            }
            reveal(RenderEngine::changed_fresh);
            assert forall|j: int| 0 <= j < olds@.len() && j < news@.len() && news@[j] is VirtualNode
                && old(self).components.instance(olds@[j]).tag@ != news@[j]->VirtualNode_0.tag@ implies {
                &&& j < kids.len()
                &&& !old(self).components.minted(#[trigger] kids[j])
                &&& self.components.instance(kids[j]).tag@ == news@[j]->VirtualNode_0.tag@
                &&& !self.components.contains(olds@[j])
            } by {
                assert(kids[j] == placed[j]);
                assert(olds@.contains(olds@[j]));
                old(self).components.lemma_child_of_live(key, olds@[j]);
                if placed[j] == olds@[j] {
                    assert(old(self).components.minted(olds@[j]));
                }
            }
            assert forall|c: ComponentKey| #[trigger] kids.contains(c) && !olds@.contains(c) implies mount_fired(
                self.hooks@, old(self).hooks@.len() as int, self.hooks@.len() as int, c) by {
                let j = choose|j: int| 0 <= j < kids.len() && kids[j] == c;
                assert(placed[j] == c);
            }
            assert forall|c: ComponentKey| #[trigger] olds@.contains(c) && !kids.contains(c) implies unmount_fired(
                self.hooks@, old(self).hooks@.len() as int, self.hooks@.len() as int, c) by {
                let j = choose|j: int| 0 <= j < olds@.len() && olds@[j] == c;
                if j < placed.len() && placed[j] == olds@[j] {
                    assert(kids[j] == c);
                }
            }
        }
        Ok(())
    }

    /// Puts a freshly mounted `child` at `index` among `key`'s children and
    /// links its layout nodes under `anchor`'s.
    fn place_new_child(&mut self, key: ComponentKey, index: usize, child: ComponentKey, anchor: Option<ComponentKey>) -> (r: Result<(), RenderEngineError>)
        requires
            old(self).wf(),
            anchor is Some ==> old(self).components.minted(anchor->Some_0),
            old(self).components.minted(key),
            !old(self).components.minted(key) || key.local.id < child.local.id,
            anchor is Some ==> anchor->Some_0.local.id < child.local.id,
            old(self).components.contains(child) ==> old(self).components.parents_of(child).len() == 0,
        ensures
            anchor is Some && old(self).components.contains(key) && old(self).components.contains(child)
                && old(self).components.contains(anchor->Some_0) && old(self).layout_handle(anchor->Some_0) is Some
                ==> #[trigger] final(self).layouts.children_of(old(self).layout_handle(anchor->Some_0)->Some_0)
                == old(self).layouts.children_of(old(self).layout_handle(anchor->Some_0)->Some_0) + native_tops(final(self).components, child),
            final(self).wf(),
            final(self).components.store_id() == old(self).components.store_id(),
            final(self).components.next() == old(self).components.next(),
            forall|n: LayoutNode| #[trigger] old(self).layouts.contains(n) ==> final(self).layouts.contains(n),
            forall|k: ComponentKey| #[trigger] final(self).components.contains(k) <==> old(self).components.contains(k),
            final(self).hooks@ == old(self).hooks@,
            forall|k: ComponentKey| #[trigger] old(self).components.contains(k) ==> final(self).components.instance(k) == old(self).components.instance(k),
            forall|k: ComponentKey| old(self).components.contains(k) && k != key ==> #[trigger] final(self).components.children_of(k) == old(self).components.children_of(k),
            old(self).components.contains(key) && old(self).components.contains(child) ==> r is Ok,
            old(self).components.contains(key) && old(self).components.contains(child) ==> final(self).components.children_of(key)
                == old(self).components.children_of(key).insert(
                if index <= old(self).components.children_of(key).len() { index as int } else { old(self).components.children_of(key).len() as int },
                child,
            ),
    {
        let ghost before = *self;
        let res = self.components.insert_child(key, index, child);
        proof {
            if before.components.contains(key) && before.components.contains(child) {
                let at = if index <= before.components.children_of(key).len() { index as int } else { before.components.children_of(key).len() as int };
                self.lemma_forest_link(&before, key, child, at);
            } else {
                self.lemma_forest_grow(&before, key);
            }
            self.lemma_frame(&before);
        }
        res?;
        if let Some(a) = anchor {
            if self.components.contains_key(a) {
                self.link_layout_nodes(a, child)?;
            }
        }
        Ok(())
    }

    /// Diffs the subtree at `key`, whose tag already matches, against
    /// `tree`: its children against the node's children, or, for text or an
    /// empty position, against no children at all.
    fn diff_node(&mut self, key: ComponentKey, tree: &RSX<C::Props>, anchor: Option<ComponentKey>) -> (r: Result<(), RenderEngineError>)
        requires
            old(self).wf(),
            anchor is Some ==> old(self).components.minted(anchor->Some_0),
        ensures
            final(self).wf(),
            final(self).advanced(old(self)),
            final(self).removals_ok(old(self)),
            old(self).components.contains(key) && tree_matches(old(self).components, key, *tree)
                ==> *final(self) == *old(self) && r is Ok,
            !old(self).components.contains(key) ==> r == Err::<(), RenderEngineError>(RenderEngineError::InvalidComponentKey(key))
                && *final(self) == *old(self),
            r is Err ==> capacity_error(r->Err_0) || !old(self).components.contains(key),
            r is Err && r->Err_0 == RenderEngineError::KeysExhausted ==> final(self).exhausted(),
            old(self).components.contains(key) && !(*tree is VirtualNode) ==> r is Ok && final(self).components.children_of(key).len() == 0,
            old(self).components.contains(key) && !(*tree is VirtualNode) ==> forall|c: ComponentKey|
                #[trigger] old(self).components.children_of(key).contains(c) ==> !final(self).components.contains(c),
            r is Ok ==> {
                &&& final(self).components.contains(key)
                &&& final(self).lower_kept(old(self), key)
                &&& final(self).instances_kept(old(self))
            },
        decreases tree,
    {
        proof {
            self.lemma_advanced_refl();
            self.lemma_removals_refl();
        }
        let own = match self.components.get(key) {
            Ok(inst) => inst.layout,
            Err(e) => { return Err(e); },
        };
        let here = match own {
            Some(_) => Some(key),
            None => anchor,
        };
        proof {
            self.components.lemma_live_was_minted(key);
        }
        match tree {
            RSX::VirtualNode(n) => {
                assert(tree_matches(old(self).components, key, *tree) ==> children_match(
                    old(self).components,
                    old(self).components.children_of(key),
                    n.children@,
                ));
                self.diff_children(key, &n.children, here)
            },
            _ => {
                let olds = self.components.children(key)?;
                proof {
                    assert(suffix(olds@, 0) =~= olds@);
                }
                let mut i: usize = 0;
                while i < olds.len()
                    invariant
                        old(self).wf(),
                        self.wf(),
                        here is Some ==> self.components.minted(here->Some_0),
                        olds@ == old(self).components.children_of(key),
                        olds@.no_duplicates(),
                        0 <= i <= olds@.len(),
                        self.advanced(old(self)),
                        self.lower_kept(old(self), key),
                        self.instances_kept(old(self)),
                        self.components.contains(key),
                        self.components.children_of(key) == suffix(olds@, i as int),
                        self.removals_ok(old(self)),
                        old(self).components.contains(key),
                        forall|j: int| 0 <= j < i && j < olds@.len() ==> (j < Seq::<ComponentKey>::empty().len() && Seq::<ComponentKey>::empty()[j] == #[trigger] olds@[j])
                            || !self.components.contains(olds@[j]),
                        olds@.len() == 0 ==> *self == *old(self),
                        old(self).components.contains(key) && tree_matches(old(self).components, key, *tree) ==> olds@.len() == 0,
                    decreases olds@.len() - i,
                {
                    let c = olds[i];
                    let ghost s1 = *self;
                    proof {
                        lemma_suffix_step(olds@, i as int);
                        lemma_no_dup_suffix(olds@, i as int);
                        assert(self.components.children_of(key) =~= Seq::<ComponentKey>::empty() + seq![c] + suffix(olds@, i + 1));
                    }
                    let res = self.unmount_child(key, c, here, Ghost(Seq::empty()), Ghost(suffix(olds@, i + 1)));
                    proof {
                        RenderEngine::lemma_advanced_trans(old(self), &s1, self);
                        RenderEngine::lemma_removals_trans(old(self), &s1, self);
                    }
                    res?;
                    proof {
                        RenderEngine::lemma_steps_trans(old(self), &s1, self, key);
                        assert(self.components.children_of(key) =~= suffix(olds@, i + 1));
                        RenderEngine::lemma_dropped_stay_unbound(old(self), &s1, self, key, olds@, Seq::<ComponentKey>::empty(), 0, i as int);
                    }
                    i = i + 1;
                }
                proof {
                    assert forall|c: ComponentKey| #[trigger] old(self).components.children_of(key).contains(c)
                        implies !self.components.contains(c) by {
                        let j = choose|j: int| 0 <= j < olds@.len() && olds@[j] == c;
                        assert(0 <= j < i && j < olds@.len());
                    }
                }
                Ok(())
            },
        }
    }
}

} // verus!
