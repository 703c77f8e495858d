//! The shape of the layout tree: nodes, their parent / child links, and the
//! dirty flags that say which nodes need their frames computed again. The
//! geometry itself is computed outside this crate, over this shape.

use vstd::prelude::*;

use crate::layout_id::{Allocator, Id};
use crate::storage::{lemma_without_absent, lemma_without_contains, without};

verus! {

/// Why a layout tree operation failed.
#[derive(Clone, Copy, Debug, PartialEq, Eq, Structural)]
pub enum Error {
    /// The handle is not a node of this tree (or not a child where one was named).
    InvalidNode(LayoutNode),
    /// Computing a frame failed inside a measurement.
    Measure,
}

/// A handle to a node of one `LayoutStore`.
#[derive(Copy, Clone, Debug, PartialEq, Eq, Structural, Hash)]
pub struct LayoutNode {
    pub instance: Id,
    pub local: Id,
}

struct NodeData {
    generation: u32,
    parents: Vec<LayoutNode>,
    children: Vec<LayoutNode>,
    dirty: bool,
}

/// Owns the layout nodes of one tree.
pub struct LayoutStore {
    id: Id,
    nodes: Allocator,
    data: Vec<Option<NodeData>>,
}

impl LayoutStore {
    pub closed spec fn store_id(&self) -> Id {
        self.id
    }

    /// The slot number of the next node.
    pub closed spec fn next(&self) -> nat {
        self.nodes.next()
    }

    pub open spec fn can_allocate(&self) -> bool {
        self.next() < u32::MAX
    }

    pub closed spec fn contains(&self, n: LayoutNode) -> bool {
        &&& n.instance == self.id
        &&& (n.local.id as int) < self.data@.len()
        &&& self.data@[n.local.id as int] is Some
        &&& self.data@[n.local.id as int]->Some_0.generation == n.local.generation
    }

    pub closed spec fn children_of(&self, n: LayoutNode) -> Seq<LayoutNode> {
        self.data@[n.local.id as int]->Some_0.children@
    }

    pub closed spec fn parents_of(&self, n: LayoutNode) -> Seq<LayoutNode> {
        self.data@[n.local.id as int]->Some_0.parents@
    }

    pub closed spec fn is_dirty(&self, n: LayoutNode) -> bool {
        self.data@[n.local.id as int]->Some_0.dirty
    }

    /// Links are mutual inverses over live nodes, and every child was created
    /// after its parent.
    pub closed spec fn wf(&self) -> bool {
        &&& self.data@.len() == self.nodes.next()
        &&& self.nodes.freed().len() == 0
        &&& forall|a: LayoutNode, b: LayoutNode|
            self.contains(a) && #[trigger] self.children_of(a).contains(b) ==> {
                &&& self.contains(b)
                &&& a.local.id < b.local.id
                &&& self.parents_of(b).contains(a)
            }
        &&& forall|a: LayoutNode, b: LayoutNode|
            self.contains(b) && #[trigger] self.parents_of(b).contains(a) ==> {
                &&& self.contains(a)
                &&& self.children_of(a).contains(b)
            }
    }

    /// Same nodes, same links.
    pub open spec fn same_shape(&self, old: &Self) -> bool {
        &&& self.store_id() == old.store_id()
        &&& self.next() == old.next()
        &&& forall|x: LayoutNode| #[trigger] self.contains(x) <==> old.contains(x)
        &&& forall|x: LayoutNode| old.contains(x) ==> #[trigger] self.children_of(x) == old.children_of(x)
        &&& forall|x: LayoutNode| old.contains(x) ==> #[trigger] self.parents_of(x) == old.parents_of(x)
    }

    pub fn new(instances: &mut Allocator) -> (r: LayoutStore)
        requires
            old(instances).can_allocate(),
        ensures
            r.wf(),
            r.next() == 0,
            forall|n: LayoutNode| !r.contains(n),
    {
        let id = instances.allocate();
        LayoutStore { id, nodes: Allocator::new(), data: Vec::new() }
    }

    pub fn has_capacity(&self) -> (r: bool)
        requires
            self.wf(),
        ensures
            r == self.can_allocate(),
    {
        self.nodes.has_capacity()
    }

    pub fn contains_node(&self, n: LayoutNode) -> (r: bool)
        requires
            self.wf(),
        ensures
            r == self.contains(n),
    {
        if n.instance == self.id && (n.local.id as usize) < self.data.len() {
            match &self.data[n.local.id as usize] {
                Some(d) => d.generation == n.local.generation,
                None => false,
            }
        } else {
            false
        }
    }

    /// Creates a node with no links, marked dirty.
    pub fn new_node(&mut self) -> (r: LayoutNode)
        requires
            old(self).wf(),
            old(self).can_allocate(),
        ensures
            final(self).wf(),
            final(self).store_id() == old(self).store_id(),
            final(self).next() == old(self).next() + 1,
            !old(self).contains(r),
            final(self).contains(r),
            r.local.id == old(self).next(),
            final(self).children_of(r).len() == 0,
            final(self).parents_of(r).len() == 0,
            final(self).is_dirty(r),
            forall|x: LayoutNode| x != r ==> (#[trigger] final(self).contains(x) <==> old(self).contains(x)),
            forall|x: LayoutNode|
                #[trigger] old(self).contains(x) ==> {
                    &&& final(self).children_of(x) == old(self).children_of(x)
                    &&& final(self).parents_of(x) == old(self).parents_of(x)
                    &&& final(self).is_dirty(x) == old(self).is_dirty(x)
                },
    {
        let local = self.nodes.allocate();
        self.data.push(
            Some(NodeData { generation: local.generation, parents: Vec::new(), children: Vec::new(), dirty: true }),
        );
        let r = LayoutNode { instance: self.id, local };
        assert forall|a: LayoutNode, b: LayoutNode|
            self.contains(a) && #[trigger] self.children_of(a).contains(b) implies {
            &&& self.contains(b)
            &&& a.local.id < b.local.id
            &&& self.parents_of(b).contains(a)
        } by {
            if a == r {
                assert(self.children_of(a).len() == 0);
            } else {
                assert(old(self).contains(a));
                assert(old(self).children_of(a) == self.children_of(a));
                assert(old(self).contains(b));
            }
        }
        assert forall|a: LayoutNode, b: LayoutNode|
            self.contains(b) && #[trigger] self.parents_of(b).contains(a) implies {
            &&& self.contains(a)
            &&& self.children_of(a).contains(b)
        } by {
            if b == r {
                assert(self.parents_of(b).len() == 0);
            } else {
                assert(old(self).contains(b));
                assert(old(self).parents_of(b) == self.parents_of(b));
                assert(old(self).contains(a));
            }
        }
        r
    }

    pub fn children(&self, node: LayoutNode) -> (r: Result<Vec<LayoutNode>, Error>)
        requires
            self.wf(),
        ensures
            r is Ok <==> self.contains(node),
            r is Ok ==> r->Ok_0@ == self.children_of(node),
            r is Err ==> r == Err::<Vec<LayoutNode>, Error>(Error::InvalidNode(node)),
    {
        if !self.contains_node(node) {
            return Err(Error::InvalidNode(node));
        }
        match &self.data[node.local.id as usize] {
            Some(d) => Ok(copy_nodes(&d.children)),
            None => Err(Error::InvalidNode(node)),
        }
    }

    pub fn child_count(&self, node: LayoutNode) -> (r: Result<usize, Error>)
        requires
            self.wf(),
        ensures
            r is Ok <==> self.contains(node),
            r is Ok ==> r->Ok_0 == self.children_of(node).len(),
            r is Err ==> r == Err::<usize, Error>(Error::InvalidNode(node)),
    {
        if !self.contains_node(node) {
            return Err(Error::InvalidNode(node));
        }
        match &self.data[node.local.id as usize] {
            Some(d) => Ok(d.children.len()),
            None => Err(Error::InvalidNode(node)),
        }
    }

    pub fn dirty(&self, node: LayoutNode) -> (r: Result<bool, Error>)
        requires
            self.wf(),
        ensures
            r is Ok <==> self.contains(node),
            r is Ok ==> r->Ok_0 == self.is_dirty(node),
            r is Err ==> r == Err::<bool, Error>(Error::InvalidNode(node)),
    {
        if !self.contains_node(node) {
            return Err(Error::InvalidNode(node));
        }
        match &self.data[node.local.id as usize] {
            Some(d) => Ok(d.dirty),
            None => Err(Error::InvalidNode(node)),
        }
    }

    /// Marks `node` and all of its ancestors dirty; the shape stays as it is.
    pub fn mark_dirty(&mut self, node: LayoutNode) -> (r: Result<(), Error>)
        requires
            old(self).wf(),
        ensures
            final(self).wf(),
            final(self).same_shape(old(self)),
            r is Ok <==> old(self).contains(node),
            r is Err ==> r == Err::<(), Error>(Error::InvalidNode(node)),
            forall|x: LayoutNode| #[trigger] old(self).contains(x) && old(self).is_dirty(x) ==> final(self).is_dirty(x),
            r is Ok ==> final(self).is_dirty(node),
            r is Ok ==> forall|p: LayoutNode| #[trigger] old(self).parents_of(node).contains(p) ==> final(self).is_dirty(p),
        decreases node.local.id,
    {
        if !self.contains_node(node) {
            return Err(Error::InvalidNode(node));
        }
        let i = node.local.id as usize;
        let mut d = match self.data[i].take() {
            Some(d) => d,
            None => { return Err(Error::InvalidNode(node)); },
        };
        d.dirty = true;
        let parents = copy_nodes(&d.parents);
        self.data.set(i, Some(d));
        assert(self.same_shape(old(self))) by {
            assert forall|x: LayoutNode| #[trigger] self.contains(x) <==> old(self).contains(x) by {
                if x.local.id == node.local.id {}
            }
        }
        proof { self.lemma_same_shape_wf(old(self)); }
        let mut j: usize = 0;
        while j < parents.len()
            invariant
                self.wf(),
                self.same_shape(old(self)),
                old(self).contains(node),
                old(self).wf(),
                parents@ == old(self).parents_of(node),
                0 <= j <= parents@.len(),
                self.is_dirty(node),
                forall|x: LayoutNode| #[trigger] old(self).contains(x) && old(self).is_dirty(x) ==> self.is_dirty(x),
                forall|k: int| 0 <= k < j ==> self.is_dirty(#[trigger] parents@[k]),
            decreases parents@.len() - j,
        {
            let p = parents[j];
            assert(old(self).parents_of(node).contains(p)) by { assert(parents@[j as int] == p); }
            assert(old(self).contains(p));
            assert(p.local.id < node.local.id);
            let ghost before = *self;
            assert(before.contains(node));
            assert(before.contains(p));
            let _ = self.mark_dirty(p);
            assert(self.is_dirty(node));
            assert forall|x: LayoutNode| #[trigger] old(self).contains(x) && old(self).is_dirty(x) implies self.is_dirty(x) by {
                assert(before.contains(x));
            }
            assert forall|k: int| 0 <= k < j + 1 implies self.is_dirty(#[trigger] parents@[k]) by {
                assert(old(self).parents_of(node).contains(parents@[k])) by { assert(old(self).parents_of(node)[k] == parents@[k]); }
                assert(before.contains(parents@[k]));
            }
            j = j + 1;
        }
        assert forall|p: LayoutNode| #[trigger] old(self).parents_of(node).contains(p) implies self.is_dirty(p) by {
            let k = choose|k: int| 0 <= k < parents@.len() && parents@[k] == p;
        }
        Ok(())
    }

    /// Links `child` under `node` and marks `node` and its ancestors dirty.
    /// The child must have been created after the parent, which keeps the
    /// tree free of cycles.
    pub fn add_child(&mut self, node: LayoutNode, child: LayoutNode) -> (r: Result<(), Error>)
        requires
            old(self).wf(),
            old(self).contains(node) && old(self).contains(child) ==> node.local.id
                < child.local.id,
        ensures
            final(self).wf(),
            r is Ok <==> old(self).contains(node) && old(self).contains(child),
            !old(self).contains(child) ==> r == Err::<(), Error>(Error::InvalidNode(child)),
            old(self).contains(child) && !old(self).contains(node) ==> r == Err::<(), Error>(
                Error::InvalidNode(node),
            ),
            r is Err ==> *final(self) == *old(self),
            r is Ok ==> {
                &&& final(self).store_id() == old(self).store_id()
                &&& final(self).next() == old(self).next()
                &&& forall|x: LayoutNode| #[trigger] final(self).contains(x) <==> old(self).contains(x)
                &&& final(self).children_of(node) == old(self).children_of(node).push(child)
                &&& final(self).parents_of(child) == old(self).parents_of(child).push(node)
                &&& forall|x: LayoutNode| old(self).contains(x) && x != node ==> #[trigger] final(self).children_of(x) == old(self).children_of(x)
                &&& forall|x: LayoutNode| old(self).contains(x) && x != child ==> #[trigger] final(self).parents_of(x) == old(self).parents_of(x)
                &&& final(self).is_dirty(node)
            },
    {
        if !self.contains_node(child) {
            return Err(Error::InvalidNode(child));
        }
        if !self.contains_node(node) {
            return Err(Error::InvalidNode(node));
        }
        let ni = node.local.id as usize;
        let ci = child.local.id as usize;
        let mut cd = match self.data[ci].take() {
            Some(d) => d,
            None => { return Err(Error::InvalidNode(child)); },
        };
        cd.parents.push(node);
        self.data.set(ci, Some(cd));
        let mut nd = match self.data[ni].take() {
            Some(d) => d,
            None => { return Err(Error::InvalidNode(node)); },
        };
        nd.children.push(child);
        self.data.set(ni, Some(nd));
        assert forall|x: LayoutNode| #[trigger] self.contains(x) <==> old(self).contains(x) by {
            if x.local.id == node.local.id || x.local.id == child.local.id {}
        }
        assert forall|a: LayoutNode, b: LayoutNode|
            self.contains(a) && #[trigger] self.children_of(a).contains(b) implies {
            &&& self.contains(b)
            &&& a.local.id < b.local.id
            &&& self.parents_of(b).contains(a)
        } by {
            assert(old(self).contains(a));
            if a == node && b == child {
                assert(self.parents_of(b)[self.parents_of(b).len() - 1] == a);
            } else {
                if a == node {
                    let l = self.children_of(a);
                    let k = choose|k: int| 0 <= k < l.len() && l[k] == b;
                    assert(old(self).children_of(a)[k] == b);
                }
                assert(old(self).children_of(a).contains(b));
                assert(old(self).parents_of(b).contains(a));
                if b == child {
                    let l = old(self).parents_of(b);
                    let k = choose|k: int| 0 <= k < l.len() && l[k] == a;
                    assert(self.parents_of(b)[k] == a);
                }
            }
        }
        assert forall|a: LayoutNode, b: LayoutNode|
            self.contains(b) && #[trigger] self.parents_of(b).contains(a) implies {
            &&& self.contains(a)
            &&& self.children_of(a).contains(b)
        } by {
            assert(old(self).contains(b));
            if a == node && b == child {
                assert(self.children_of(a)[self.children_of(a).len() - 1] == b);
            } else {
                if b == child {
                    let l = self.parents_of(b);
                    let k = choose|k: int| 0 <= k < l.len() && l[k] == a;
                    assert(old(self).parents_of(b)[k] == a);
                }
                assert(old(self).parents_of(b).contains(a));
                assert(old(self).children_of(a).contains(b));
                if a == node {
                    let l = old(self).children_of(a);
                    let k = choose|k: int| 0 <= k < l.len() && l[k] == b;
                    assert(self.children_of(a)[k] == b);
                }
            }
        }
        let ghost linked = *self;
        let _ = self.mark_dirty(node);
        assert(self.children_of(node) == linked.children_of(node));
        assert(self.parents_of(child) == linked.parents_of(child));
        Ok(())
    }

    /// Unlinks `child` from `node` (every link between the two) and marks
    /// `node` and its ancestors dirty. Fails when `child` is not a child of
    /// `node`.
    pub fn remove_child(&mut self, node: LayoutNode, child: LayoutNode) -> (r: Result<LayoutNode, Error>)
        requires
            old(self).wf(),
        ensures
            final(self).wf(),
            r is Ok <==> old(self).contains(node) && old(self).children_of(node).contains(child),
            !old(self).contains(node) ==> r == Err::<LayoutNode, Error>(Error::InvalidNode(node)),
            old(self).contains(node) && !old(self).children_of(node).contains(child) ==> r == Err::<LayoutNode, Error>(Error::InvalidNode(child)),
            r is Err ==> *final(self) == *old(self),
            r is Ok ==> {
                &&& r->Ok_0 == child
                &&& final(self).store_id() == old(self).store_id()
                &&& final(self).next() == old(self).next()
                &&& forall|x: LayoutNode| #[trigger] final(self).contains(x) <==> old(self).contains(x)
                &&& final(self).children_of(node) == without(old(self).children_of(node), child)
                &&& final(self).parents_of(child) == without(old(self).parents_of(child), node)
                &&& forall|x: LayoutNode| old(self).contains(x) && x != node ==> #[trigger] final(self).children_of(x) == old(self).children_of(x)
                &&& forall|x: LayoutNode| old(self).contains(x) && x != child ==> #[trigger] final(self).parents_of(x) == old(self).parents_of(x)
                &&& final(self).is_dirty(node)
            },
    {
        if !self.contains_node(node) {
            return Err(Error::InvalidNode(node));
        }
        let ni = node.local.id as usize;
        let found = match &self.data[ni] {
            Some(d) => contains_node_in(&d.children, child),
            None => false,
        };
        if !found {
            return Err(Error::InvalidNode(child));
        }
        assert(old(self).children_of(node).contains(child));
        assert(old(self).contains(child));
        let ci = child.local.id as usize;
        assert(ni != ci);
        let mut nd = match self.data[ni].take() {
            Some(d) => d,
            None => { return Err(Error::InvalidNode(node)); },
        };
        nd.children = nodes_without(&nd.children, child);
        self.data.set(ni, Some(nd));
        let mut cd = match self.data[ci].take() {
            Some(d) => d,
            None => { return Err(Error::InvalidNode(child)); },
        };
        cd.parents = nodes_without(&cd.parents, node);
        self.data.set(ci, Some(cd));
        assert forall|x: LayoutNode| #[trigger] self.contains(x) <==> old(self).contains(x) by {
            if x.local.id == node.local.id || x.local.id == child.local.id {}
        }
        proof {
            lemma_without_contains(old(self).children_of(node), child);
            lemma_without_contains(old(self).parents_of(child), node);
        }
        assert forall|a: LayoutNode, b: LayoutNode|
            self.contains(a) && #[trigger] self.children_of(a).contains(b) implies {
            &&& self.contains(b)
            &&& a.local.id < b.local.id
            &&& self.parents_of(b).contains(a)
        } by {
            assert(old(self).contains(a));
            if a == node {
                assert(b != child);
            }
            assert(old(self).children_of(a).contains(b));
            assert(old(self).parents_of(b).contains(a));
            if b == child {
                assert(a != node);
            }
        }
        assert forall|a: LayoutNode, b: LayoutNode|
            self.contains(b) && #[trigger] self.parents_of(b).contains(a) implies {
            &&& self.contains(a)
            &&& self.children_of(a).contains(b)
        } by {
            assert(old(self).contains(b));
            if b == child {
                assert(a != node);
            }
            assert(old(self).parents_of(b).contains(a));
            assert(old(self).children_of(a).contains(b));
            if a == node {
                assert(b != child);
            }
        }
        let ghost unlinked = *self;
        let _ = self.mark_dirty(node);
        assert(self.children_of(node) == unlinked.children_of(node));
        assert(self.parents_of(child) == unlinked.parents_of(child));
        Ok(child)
    }

    pub proof fn lemma_contains_below_next(&self, n: LayoutNode)
        requires
            self.wf(),
            self.contains(n),
        ensures
            n.local.id < self.next(),
    {
    }

    proof fn lemma_same_shape_wf(&self, old: &Self)
        requires
            old.wf(),
            self.same_shape(old),
            self.nodes == old.nodes,
            self.data@.len() == old.data@.len(),
        ensures
            self.wf(),
    {
        assert forall|a: LayoutNode, b: LayoutNode|
            self.contains(a) && #[trigger] self.children_of(a).contains(b) implies {
            &&& self.contains(b)
            &&& a.local.id < b.local.id
            &&& self.parents_of(b).contains(a)
        } by {
            assert(old.contains(a));
            assert(self.children_of(a) == old.children_of(a));
            assert(old.contains(b));
            assert(self.parents_of(b) == old.parents_of(b));
        }
        assert forall|a: LayoutNode, b: LayoutNode|
            self.contains(b) && #[trigger] self.parents_of(b).contains(a) implies {
            &&& self.contains(a)
            &&& self.children_of(a).contains(b)
        } by {
            assert(old.contains(b));
            assert(self.parents_of(b) == old.parents_of(b));
            assert(old.contains(a));
            assert(self.children_of(a) == old.children_of(a));
        }
    }
}

/// Does `v` hold `n`?
fn contains_node_in(v: &Vec<LayoutNode>, n: LayoutNode) -> (r: bool)
    ensures
        r == v@.contains(n),
{
    let mut i: usize = 0;
    while i < v.len()
        invariant
            0 <= i <= v@.len(),
            forall|k: int| 0 <= k < i ==> v@[k] != n,
        decreases v@.len() - i,
    {
        if v[i] == n {
            return true;
        }
        i = i + 1;
    }
    false
}

/// A copy of `v` without `n`.
fn nodes_without(v: &Vec<LayoutNode>, n: LayoutNode) -> (r: Vec<LayoutNode>)
    ensures
        r@ == without(v@, n),
{
    let mut r: Vec<LayoutNode> = Vec::new();
    let mut i: usize = 0;
    while i < v.len()
        invariant
            0 <= i <= v@.len(),
            r@ == without(v@.subrange(0, i as int), n),
        decreases v@.len() - i,
    {
        assert(v@.subrange(0, i + 1).drop_last() == v@.subrange(0, i as int));
        if v[i] != n {
            r.push(v[i]);
        }
        i = i + 1;
    }
    assert(v@.subrange(0, v@.len() as int) == v@);
    r
}

/// A copy of a node list.
pub fn copy_nodes(v: &Vec<LayoutNode>) -> (r: Vec<LayoutNode>)
    ensures
        r@ == v@,
{
    let mut r: Vec<LayoutNode> = Vec::new();
    let mut i: usize = 0;
    while i < v.len()
        invariant
            0 <= i <= v@.len(),
            r@ == v@.subrange(0, i as int),
        decreases v@.len() - i,
    {
        r.push(v[i]);
        i = i + 1;
    }
    r
}

} // verus!
