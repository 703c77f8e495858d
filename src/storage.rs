//! The component arena: the only owner of live component instances, with
//! parent / child adjacency kept in tables of their own.

use vstd::prelude::*;

use crate::error::RenderEngineError as Error;
use crate::key::{Allocator, ComponentKey, Id};
use crate::layout::LayoutNode;
use crate::style_key::StyleKey;
use crate::traits::Component;

verus! {

/// `s` with every occurrence of `k` left out, the rest in order.
pub open spec fn without<K>(s: Seq<K>, k: K) -> Seq<K>
    decreases s.len(),
{
    if s.len() == 0 {
        s
    } else if s.last() == k {
        without(s.drop_last(), k)
    } else {
        without(s.drop_last(), k).push(s.last())
    }
}

pub proof fn lemma_without_contains<K>(s: Seq<K>, k: K)
    ensures
        forall|x: K| #[trigger]
            without(s, k).contains(x) <==> s.contains(x) && x != k,
    decreases s.len(),
{
    if s.len() > 0 {
        let d = s.drop_last();
        let w = without(d, k);
        lemma_without_contains(d, k);
        assert forall|x: K| #[trigger]
            without(s, k).contains(x) <==> s.contains(x) && x != k by {
            assert(s.contains(x) <==> d.contains(x) || s.last() == x) by {
                if s.contains(x) {
                    let i = choose|i: int| 0 <= i < s.len() && s[i] == x;
                    if i < s.len() - 1 {
                        assert(d[i] == x);
                    }
                }
                if d.contains(x) {
                    let i = choose|i: int| 0 <= i < d.len() && d[i] == x;
                    assert(s[i] == x);
                }
            }
            if s.last() != k {
                let wp = w.push(s.last());
                assert(without(s, k) == wp);
                assert(wp.contains(x) <==> w.contains(x) || s.last() == x) by {
                    assert(wp[w.len() as int] == s.last());
                    if wp.contains(x) {
                        let i = choose|i: int| 0 <= i < wp.len() && wp[i] == x;
                        if i < w.len() {
                            assert(w[i] == x);
                        }
                    }
                    if w.contains(x) {
                        let i = choose|i: int| 0 <= i < w.len() && w[i] == x;
                        assert(wp[i] == x);
                    }
                }
            } else {
                assert(without(s, k) == w);
            }
        }
    }
}

pub proof fn lemma_without_absent<K>(s: Seq<K>, k: K)
    requires
        !s.contains(k),
    ensures
        without(s, k) == s,
    decreases s.len(),
{
    if s.len() > 0 {
        let d = s.drop_last();
        assert(!d.contains(k)) by {
            if d.contains(k) {
                let i = choose|i: int| 0 <= i < d.len() && d[i] == k;
                assert(s[i] == k);
            }
        }
        lemma_without_absent(d, k);
        assert(s.last() != k);
        assert(s == d.push(s.last()));
    }
}

pub proof fn lemma_without_len<K>(s: Seq<K>, k: K)
    ensures
        without(s, k).len() <= s.len(),
    decreases s.len(),
{
    if s.len() > 0 {
        lemma_without_len(s.drop_last(), k);
    }
}

pub proof fn lemma_without_no_duplicates<K>(s: Seq<K>, k: K)
    requires
        s.no_duplicates(),
    ensures
        without(s, k).no_duplicates(),
    decreases s.len(),
{
    if s.len() > 0 {
        let d = s.drop_last();
        assert(d.no_duplicates()) by {
            assert forall|i: int, j: int| 0 <= i < d.len() && 0 <= j < d.len() && i != j implies d[i] != d[j] by {
                assert(s[i] == d[i] && s[j] == d[j]);
            }
        }
        lemma_without_no_duplicates(d, k);
        if s.last() != k {
            let w = without(d, k);
            lemma_without_contains(d, k);
            assert(!w.contains(s.last())) by {
                if d.contains(s.last()) {
                    let i = choose|i: int| 0 <= i < d.len() && d[i] == s.last();
                    assert(s[i] == s[s.len() - 1]);
                }
            }
            let wp = w.push(s.last());
            assert forall|i: int, j: int| 0 <= i < wp.len() && 0 <= j < wp.len() && i != j implies wp[i] != wp[j] by {
                if i == w.len() as int {
                    assert(w[j] == wp[j]);
                } else if j == w.len() as int {
                    assert(w[i] == wp[i]);
                } else {
                    assert(w[i] == wp[i] && w[j] == wp[j]);
                }
            }
        }
    }
}

pub proof fn lemma_without_concat<K>(a: Seq<K>, b: Seq<K>, k: K)
    ensures
        without(a + b, k) == without(a, k) + without(b, k),
    decreases b.len(),
{
    if b.len() == 0 {
        assert(a + b == a);
        assert(without(b, k) == b);
        assert(without(a, k) + b == without(a, k));
    } else {
        lemma_without_concat(a, b.drop_last(), k);
        assert((a + b).drop_last() == a + b.drop_last());
        assert((a + b).last() == b.last());
        if b.last() == k {
        } else {
            assert(without(a, k) + without(b.drop_last(), k).push(b.last()) == (without(a, k) + without(b.drop_last(), k)).push(b.last()));
        }
    }
}

/// A copy of `v` without `k`.
fn vec_without(v: &Vec<ComponentKey>, k: ComponentKey) -> (r: Vec<ComponentKey>)
    ensures
        r@ == without(v@, k),
{
    let mut r: Vec<ComponentKey> = Vec::new();
    let mut i: usize = 0;
    while i < v.len()
        invariant
            0 <= i <= v@.len(),
            r@ == without(v@.subrange(0, i as int), k),
        decreases v@.len() - i,
    {
        assert(v@.subrange(0, i + 1).drop_last() == v@.subrange(0, i as int));
        if v[i] != k {
            r.push(v[i]);
        }
        i = i + 1;
    }
    assert(v@.subrange(0, v@.len() as int) == v@);
    r
}

/// Adjacency symmetry: in a well-formed store, `b` is among `a`'s children
/// exactly when `a` is among `b`'s parents. Every operation of the store and
/// of the engine keeps the store well formed.
pub proof fn lemma_adjacency_symmetric<C>(s: &ComponentStore<C>, a: ComponentKey, b: ComponentKey)
    requires
        s.wf(),
        s.contains(a),
        s.contains(b),
    ensures
        s.children_of(a).contains(b) <==> s.parents_of(b).contains(a),
{
}

/// Key uniqueness across stores: stores with different ids never mint equal
/// keys. (Within one store, `new_key` differs from every key minted before.)
pub proof fn lemma_stores_mint_distinct_keys<C, D>(
    s1: &ComponentStore<C>,
    s2: &ComponentStore<D>,
    k1: ComponentKey,
    k2: ComponentKey,
)
    requires
        s1.store_id() != s2.store_id(),
        s1.minted(k1),
        s2.minted(k2),
    ensures
        k1 != k2,
{
}

/// A copy of a key list.
pub fn copy_keys(v: &Vec<ComponentKey>) -> (r: Vec<ComponentKey>)
    ensures
        r@ == v@,
{
    let mut r: Vec<ComponentKey> = Vec::new();
    let mut i: usize = 0;
    while i < v.len()
        invariant
            0 <= i <= v@.len(),
            r@ == v@.subrange(0, i as int),
        decreases v@.len() - i,
    {
        r.push(v[i]);
        i = i + 1;
    }
    r
}

/// Does `v` hold `k`?
fn contains_key_in(v: &Vec<ComponentKey>, k: ComponentKey) -> (r: bool)
    ensures
        r == v@.contains(k),
{
    let mut i: usize = 0;
    while i < v.len()
        invariant
            0 <= i <= v@.len(),
            forall|j: int| 0 <= j < i ==> v@[j] != k,
        decreases v@.len() - i,
    {
        if v[i] == k {
            return true;
        }
        i = i + 1;
    }
    false
}

/// A lifecycle hook a store has run, in the order it fired them.
pub enum Hook {
    DidMount(ComponentKey),
    WillUnmount(ComponentKey),
}

/// Arena payload for one mounted component.
pub struct Instance<C> {
    /// The type name the component was mounted under.
    pub tag: String,
    /// The style selectors the component was mounted with.
    pub style_keys: Vec<StyleKey>,
    /// The behaviour object; the arena slot is its only owner.
    pub component: C,
    /// The component's layout node, present exactly when it is natively backed.
    pub layout: Option<LayoutNode>,
}

/// Owns every live instance and the parent / child lists between them.
pub struct ComponentStore<C> {
    id: Id,
    nodes: Allocator,
    components: Vec<Option<Instance<C>>>,
    parents: Vec<Option<Vec<ComponentKey>>>,
    children: Vec<Option<Vec<ComponentKey>>>,
    hooks: Ghost<Seq<Hook>>,
}

impl<C> ComponentStore<C> {
    /// The store's own id, shared by every key it mints.
    pub closed spec fn store_id(&self) -> Id {
        self.id
    }

    /// Every lifecycle hook this store has run, oldest first.
    pub closed spec fn hooks(&self) -> Seq<Hook> {
        self.hooks@
    }

    /// The sequence number of the next key to mint.
    pub closed spec fn next(&self) -> nat {
        self.nodes.next()
    }

    pub open spec fn can_mint(&self) -> bool {
        self.next() < u32::MAX
    }

    /// Was `k` minted by this store?
    pub open spec fn minted(&self, k: ComponentKey) -> bool {
        k.instance == self.store_id() && 1 <= k.local.id < self.next()
    }

    /// Is `k` bound to a live instance?
    pub closed spec fn contains(&self, k: ComponentKey) -> bool {
        &&& k.instance == self.id
        &&& (k.local.id as int) < self.components@.len()
        &&& self.components@[k.local.id as int] is Some
    }

    pub closed spec fn instance(&self, k: ComponentKey) -> Instance<C> {
        self.components@[k.local.id as int]->Some_0
    }

    pub closed spec fn children_of(&self, k: ComponentKey) -> Seq<ComponentKey> {
        self.children@[k.local.id as int]->Some_0@
    }

    pub closed spec fn parents_of(&self, k: ComponentKey) -> Seq<ComponentKey> {
        self.parents@[k.local.id as int]->Some_0@
    }

    /// The tables agree on which keys are live, the adjacency lists are
    /// mutual inverses over live keys, and every child was minted after its
    /// parent (so the graph has no cycle).
    pub closed spec fn wf(&self) -> bool {
        &&& self.next() >= 1
        &&& self.components@.len() == self.next()
        &&& self.parents@.len() == self.next()
        &&& self.children@.len() == self.next()
        &&& self.components@[0] is None
        &&& forall|i: int|
            0 <= i < self.components@.len() ==> {
                &&& (#[trigger] self.components@[i] is Some <==> self.parents@[i] is Some)
                &&& (self.components@[i] is Some <==> self.children@[i] is Some)
            }
        &&& forall|a: ComponentKey, b: ComponentKey|
            self.contains(a) && #[trigger] self.children_of(a).contains(b) ==> {
                &&& self.contains(b)
                &&& self.parents_of(b).contains(a)
            }
        &&& forall|a: ComponentKey, b: ComponentKey|
            self.contains(b) && #[trigger] self.parents_of(b).contains(a) ==> {
                &&& self.contains(a)
                &&& self.children_of(a).contains(b)
            }
    }

    /// Same id, same live keys, same tags, style keys and layout handles, same
    /// lists; only the behaviour objects may differ.
    pub open spec fn same_shape(&self, old: &Self) -> bool {
        &&& self.store_id() == old.store_id()
        &&& self.next() == old.next()
        &&& forall|x: ComponentKey| #[trigger] self.contains(x) <==> old.contains(x)
        &&& forall|x: ComponentKey|
            #![trigger self.instance(x)]
            old.contains(x) ==> {
                &&& self.instance(x).tag == old.instance(x).tag
                &&& self.instance(x).style_keys == old.instance(x).style_keys
                &&& self.instance(x).layout == old.instance(x).layout
                &&& self.children_of(x) == old.children_of(x)
                &&& self.parents_of(x) == old.parents_of(x)
            }
    }

    proof fn lemma_same_shape_wf(&self, old: &Self)
        requires
            old.wf(),
            self.same_shape(old),
            self.id == old.id,
            self.nodes == old.nodes,
            self.components@.len() == old.components@.len(),
            self.parents == old.parents,
            self.children == old.children,
            forall|i: int|
                0 <= i < self.components@.len() ==> (#[trigger] self.components@[i] is Some
                    <==> old.components@[i] is Some),
        ensures
            self.wf(),
            old.ordered() ==> self.ordered(),
    {
        assert forall|a: ComponentKey, b: ComponentKey|
            self.contains(a) && #[trigger] self.children_of(a).contains(b) && old.ordered() implies a.local.id < b.local.id by {
            assert(old.contains(a));
            assert(old.children_of(a) == self.children_of(a));
        }
        assert forall|a: ComponentKey, b: ComponentKey|
            self.contains(a) && #[trigger] self.children_of(a).contains(b) implies {
            &&& self.contains(b)
            &&& (old.ordered() ==> a.local.id < b.local.id)
            &&& self.parents_of(b).contains(a)
        } by {
            assert(old.contains(a));
            assert(old.children_of(a) == self.children_of(a));
            assert(old.contains(b));
            assert(self.components@[b.local.id as int] is Some);
        }
        assert forall|a: ComponentKey, b: ComponentKey|
            self.contains(b) && #[trigger] self.parents_of(b).contains(a) implies {
            &&& self.contains(a)
            &&& self.children_of(a).contains(b)
        } by {
            assert(old.contains(b));
            assert(old.parents_of(b) == self.parents_of(b));
            assert(old.contains(a));
            assert(self.components@[a.local.id as int] is Some);
        }
    }

    /// Every child was minted after its parent, so the child lists hold no
    /// cycle. The store's operations keep this when each new link goes from
    /// an older key to a younger one; the engine keeps it as its invariant.
    pub closed spec fn ordered(&self) -> bool {
        forall|a: ComponentKey, b: ComponentKey|
            self.contains(a) && #[trigger] self.children_of(a).contains(b) ==> a.local.id < b.local.id
    }

    /// Is every live instance other than `k` as it was in `old`, lists included?
    pub open spec fn others_unchanged(&self, old: &Self, k: ComponentKey) -> bool {
        forall|x: ComponentKey|
            x != k ==> {
                &&& (#[trigger] self.contains(x) <==> old.contains(x))
                &&& old.contains(x) ==> {
                    &&& self.instance(x) == old.instance(x)
                    &&& self.children_of(x) == old.children_of(x)
                    &&& self.parents_of(x) == old.parents_of(x)
                }
            }
    }

    /// In an ordered store, a child of a live key is live, was minted after
    /// it, and lists it among its parents.
    pub proof fn lemma_child_of_live(&self, a: ComponentKey, b: ComponentKey)
        requires
            self.wf(),
            self.ordered(),
            self.contains(a),
            self.children_of(a).contains(b),
        ensures
            self.contains(b),
            a.local.id < b.local.id,
            self.parents_of(b).contains(a),
            self.minted(b),
    {
    }

    pub proof fn lemma_live_was_minted(&self, k: ComponentKey)
        requires
            self.wf(),
            self.contains(k),
        ensures
            self.minted(k),
    {
    }

    /// Takes the store's id from `instances`, so that stores built from one
    /// allocator never mint equal keys.
    pub fn new(instances: &mut Allocator) -> (r: ComponentStore<C>)
        requires
            old(instances).can_allocate(),
        ensures
            r.ordered(),
            r.hooks().len() == 0,
            r.wf(),
            r.store_id().id == old(instances).next(),
            final(instances).next() == old(instances).next() + 1,
            r.next() == 1,
            forall|k: ComponentKey| !r.contains(k),
    {
        let id = instances.allocate();
        let mut components: Vec<Option<Instance<C>>> = Vec::new();
        components.push(None);
        let mut parents: Vec<Option<Vec<ComponentKey>>> = Vec::new();
        parents.push(None);
        let mut children: Vec<Option<Vec<ComponentKey>>> = Vec::new();
        children.push(None);
        ComponentStore { id, nodes: Allocator::new(), components, parents, children, hooks: Ghost(Seq::empty()) }
    }

    pub fn has_capacity(&self) -> (r: bool)
        ensures
            r == self.can_mint(),
    {
        self.nodes.has_capacity()
    }

    /// Mints a key that differs from every key minted before; binds nothing.
    pub fn new_key(&mut self) -> (r: ComponentKey)
        requires
            old(self).wf(),
            old(self).can_mint(),
        ensures
            old(self).ordered() ==> final(self).ordered(),
            final(self).hooks() == old(self).hooks(),
            final(self).wf(),
            r.instance == old(self).store_id(),
            r.local.id == old(self).next(),
            final(self).store_id() == old(self).store_id(),
            final(self).next() == old(self).next() + 1,
            final(self).minted(r),
            !final(self).contains(r),
            forall|k: ComponentKey| old(self).minted(k) ==> k != r,
            final(self).others_unchanged(old(self), r),
    {
        let local = self.nodes.allocate();
        self.components.push(None);
        self.parents.push(None);
        self.children.push(None);
        let r = ComponentKey { instance: self.id, local };
        assert forall|x: ComponentKey| x != r implies (#[trigger] self.contains(x) <==> old(
            self,
        ).contains(x)) by {}
        assert forall|a: ComponentKey, b: ComponentKey|
            self.contains(a) && #[trigger] self.children_of(a).contains(b) implies {
            &&& self.contains(b)
            &&& (old(self).ordered() ==> a.local.id < b.local.id)
            &&& self.parents_of(b).contains(a)
        } by {
            assert(old(self).contains(a));
            assert(old(self).children_of(a) == self.children_of(a));
            assert(old(self).contains(b));
        }
        assert forall|a: ComponentKey, b: ComponentKey|
            self.contains(b) && #[trigger] self.parents_of(b).contains(a) implies {
            &&& self.contains(a)
            &&& self.children_of(a).contains(b)
        } by {
            assert(old(self).contains(b));
            assert(old(self).parents_of(b) == self.parents_of(b));
            assert(old(self).contains(a));
        }
        r
    }

    pub fn contains_key(&self, key: ComponentKey) -> (r: bool)
        requires
            self.wf(),
        ensures
            r == self.contains(key),
    {
        key.instance == self.id && (key.local.id as usize) < self.components.len()
            && self.components[key.local.id as usize].is_some()
    }

    /// Binds a minted, unbound key to its payload, with empty lists. A key
    /// that is bound already, or that this store did not mint, is refused
    /// and the store left as it was.
    pub fn insert(&mut self, key: ComponentKey, instance: Instance<C>) -> (r: Result<(), Error>)
        requires
            old(self).wf(),
        ensures
            old(self).ordered() ==> final(self).ordered(),
            final(self).hooks() == old(self).hooks(),
            final(self).wf(),
            final(self).store_id() == old(self).store_id(),
            final(self).next() == old(self).next(),
            r is Ok <==> old(self).minted(key) && !old(self).contains(key),
            r is Ok ==> {
                &&& final(self).contains(key)
                &&& final(self).instance(key) == instance
                &&& final(self).children_of(key).len() == 0
                &&& final(self).parents_of(key).len() == 0
                &&& final(self).others_unchanged(old(self), key)
            },
            r is Err ==> r == Err::<(), Error>(Error::InvalidComponentKey(key)) && *final(self)
                == *old(self),
    {
        if key.instance != self.id || key.local.id == 0 || (key.local.id as usize)
            >= self.components.len() || self.components[key.local.id as usize].is_some() {
            return Err(Error::InvalidComponentKey(key));
        }
        let i = key.local.id as usize;
        self.components.set(i, Some(instance));
        self.parents.set(i, Some(Vec::new()));
        self.children.set(i, Some(Vec::new()));
        assert forall|a: ComponentKey, b: ComponentKey|
            self.contains(a) && #[trigger] self.children_of(a).contains(b) implies {
            &&& self.contains(b)
            &&& (old(self).ordered() ==> a.local.id < b.local.id)
            &&& self.parents_of(b).contains(a)
        } by {
            if a == key {
                assert(self.children_of(a).len() == 0);
            } else {
                assert(old(self).contains(a));
                assert(old(self).children_of(a) == self.children_of(a));
                assert(b != key);
            }
        }
        assert forall|a: ComponentKey, b: ComponentKey|
            self.contains(b) && #[trigger] self.parents_of(b).contains(a) implies {
            &&& self.contains(a)
            &&& self.children_of(a).contains(b)
        } by {
            if b == key {
                assert(self.parents_of(b).len() == 0);
            } else {
                assert(old(self).contains(b));
                assert(old(self).parents_of(b) == self.parents_of(b));
                assert(a != key);
            }
        }
        Ok(())
    }

    /// The payload bound to `key`.
    pub fn get(&self, key: ComponentKey) -> (r: Result<&Instance<C>, Error>)
        requires
            self.wf(),
        ensures
            r is Ok <==> self.contains(key),
            r is Ok ==> *r->Ok_0 == self.instance(key),
            r is Err ==> r == Err::<&Instance<C>, Error>(Error::InvalidComponentKey(key)),
    {
        if !self.contains_key(key) {
            return Err(Error::InvalidComponentKey(key));
        }
        match &self.components[key.local.id as usize] {
            Some(inst) => Ok(inst),
            None => Err(Error::InvalidComponentKey(key)),
        }
    }


    /// Appends `child` to `parent`'s children and `parent` to `child`'s
    /// parents. A link from an older key to a younger one keeps the store
    /// ordered.
    pub fn add_child(&mut self, parent: ComponentKey, child: ComponentKey) -> (r: Result<(), Error>)
        requires
            old(self).wf(),
        ensures
            old(self).ordered() && parent.local.id < child.local.id ==> final(self).ordered(),
            final(self).hooks() == old(self).hooks(),
            final(self).wf(),
            r is Ok <==> old(self).contains(parent) && old(self).contains(child),
            !old(self).contains(child) ==> r == Err::<(), Error>(Error::InvalidComponentKey(child)),
            old(self).contains(child) && !old(self).contains(parent) ==> r == Err::<(), Error>(
                Error::InvalidComponentKey(parent),
            ),
            r is Err ==> *final(self) == *old(self),
            r is Ok ==> {
                &&& final(self).store_id() == old(self).store_id()
                &&& final(self).next() == old(self).next()
                &&& forall|x: ComponentKey| #[trigger] final(self).contains(x) <==> old(self).contains(x)
                &&& forall|x: ComponentKey| #[trigger] old(self).contains(x) ==> final(self).instance(x) == old(self).instance(x)
                &&& final(self).children_of(parent) == old(self).children_of(parent).push(child)
                &&& final(self).parents_of(child) == old(self).parents_of(child).push(parent)
                &&& forall|x: ComponentKey| old(self).contains(x) && x != parent ==> #[trigger] final(self).children_of(x) == old(self).children_of(x)
                &&& forall|x: ComponentKey| old(self).contains(x) && x != child ==> #[trigger] final(self).parents_of(x) == old(self).parents_of(x)
            },
    {
        if !self.contains_key(child) {
            return Err(Error::InvalidComponentKey(child));
        }
        if !self.contains_key(parent) {
            return Err(Error::InvalidComponentKey(parent));
        }
        let pi = parent.local.id as usize;
        let ci = child.local.id as usize;
        let mut ps = match self.parents[ci].take() {
            Some(v) => v,
            None => Vec::new(),
        };
        ps.push(parent);
        self.parents.set(ci, Some(ps));
        let mut cs = match self.children[pi].take() {
            Some(v) => v,
            None => Vec::new(),
        };
        cs.push(child);
        self.children.set(pi, Some(cs));
        assert forall|a: ComponentKey, b: ComponentKey|
            self.contains(a) && #[trigger] self.children_of(a).contains(b) implies {
            &&& self.contains(b)
            &&& (old(self).ordered() && parent.local.id < child.local.id ==> a.local.id < b.local.id)
            &&& self.parents_of(b).contains(a)
        } by {
            assert(old(self).contains(a));
            if a == parent && b == child {
                assert(self.parents_of(b)[self.parents_of(b).len() - 1] == a);
            } else {
                if a == parent {
                    let l = self.children_of(a);
                    let k = choose|k: int| 0 <= k < l.len() && l[k] == b;
                    assert(old(self).children_of(a)[k] == b);
                }
                assert(old(self).children_of(a).contains(b));
                assert(old(self).parents_of(b).contains(a));
                if b == child {
                    let l = old(self).parents_of(b);
                    let k = choose|k: int| 0 <= k < l.len() && l[k] == a;
                    assert(self.parents_of(b)[k] == a);
                }
            }
        }
        assert forall|a: ComponentKey, b: ComponentKey|
            self.contains(b) && #[trigger] self.parents_of(b).contains(a) implies {
            &&& self.contains(a)
            &&& self.children_of(a).contains(b)
        } by {
            assert(old(self).contains(b));
            if a == parent && b == child {
                assert(self.children_of(a)[self.children_of(a).len() - 1] == b);
            } else {
                if b == child {
                    let l = self.parents_of(b);
                    let k = choose|k: int| 0 <= k < l.len() && l[k] == a;
                    assert(old(self).parents_of(b)[k] == a);
                }
                assert(old(self).parents_of(b).contains(a));
                assert(old(self).children_of(a).contains(b));
                if a == parent {
                    let l = old(self).children_of(a);
                    let k = choose|k: int| 0 <= k < l.len() && l[k] == b;
                    assert(self.children_of(a)[k] == b);
                }
            }
        }
        Ok(())
    }

    /// Puts `child` at position `index` of `parent`'s children (at the end
    /// when `index` is past it) and adds `parent` to `child`'s parents. The
    /// link from an older key to a younger one keeps the store ordered.
    pub fn insert_child(&mut self, parent: ComponentKey, index: usize, child: ComponentKey) -> (r: Result<(), Error>)
        requires
            old(self).wf(),
        ensures
            old(self).ordered() && parent.local.id < child.local.id ==> final(self).ordered(),
            final(self).hooks() == old(self).hooks(),
            final(self).wf(),
            r is Ok <==> old(self).contains(parent) && old(self).contains(child),
            !old(self).contains(child) ==> r == Err::<(), Error>(Error::InvalidComponentKey(child)),
            old(self).contains(child) && !old(self).contains(parent) ==> r == Err::<(), Error>(
                Error::InvalidComponentKey(parent),
            ),
            r is Err ==> *final(self) == *old(self),
            r is Ok ==> {
                let at = if index <= old(self).children_of(parent).len() { index as int } else { old(self).children_of(parent).len() as int };
                &&& final(self).store_id() == old(self).store_id()
                &&& final(self).next() == old(self).next()
                &&& forall|x: ComponentKey| #[trigger] final(self).contains(x) <==> old(self).contains(x)
                &&& forall|x: ComponentKey| #[trigger] old(self).contains(x) ==> final(self).instance(x) == old(self).instance(x)
                &&& final(self).children_of(parent) == old(self).children_of(parent).insert(at, child)
                &&& final(self).parents_of(child) == old(self).parents_of(child).push(parent)
                &&& forall|x: ComponentKey| old(self).contains(x) && x != parent ==> #[trigger] final(self).children_of(x) == old(self).children_of(x)
                &&& forall|x: ComponentKey| old(self).contains(x) && x != child ==> #[trigger] final(self).parents_of(x) == old(self).parents_of(x)
            },
    {
        if !self.contains_key(child) {
            return Err(Error::InvalidComponentKey(child));
        }
        if !self.contains_key(parent) {
            return Err(Error::InvalidComponentKey(parent));
        }
        let pi = parent.local.id as usize;
        let ci = child.local.id as usize;
        let mut ps = match self.parents[ci].take() {
            Some(v) => v,
            None => Vec::new(),
        };
        ps.push(parent);
        self.parents.set(ci, Some(ps));
        let mut cs = match self.children[pi].take() {
            Some(v) => v,
            None => Vec::new(),
        };
        let at = if index <= cs.len() { index } else { cs.len() };
        cs.insert(at, child);
        self.children.set(pi, Some(cs));
        let ghost oc = old(self).children_of(parent);
        let ghost nc = oc.insert(at as int, child);
        assert(nc.len() == oc.len() + 1);
        assert forall|x: ComponentKey| nc.contains(x) <==> oc.contains(x) || x == child by {
            if nc.contains(x) {
                let k = choose|k: int| 0 <= k < nc.len() && nc[k] == x;
                if k < at {
                    assert(oc[k] == x);
                } else if k > at {
                    assert(oc[k - 1] == x);
                }
            }
            if oc.contains(x) {
                let k = choose|k: int| 0 <= k < oc.len() && oc[k] == x;
                if k < at {
                    assert(nc[k] == x);
                } else {
                    assert(nc[k + 1] == x);
                }
            }
            if x == child {
                assert(nc[at as int] == x);
            }
        }
        assert forall|a: ComponentKey, b: ComponentKey|
            self.contains(a) && #[trigger] self.children_of(a).contains(b) implies {
            &&& self.contains(b)
            &&& (old(self).ordered() && parent.local.id < child.local.id ==> a.local.id < b.local.id)
            &&& self.parents_of(b).contains(a)
        } by {
            assert(old(self).contains(a));
            if a == parent && b == child {
                assert(self.parents_of(b)[self.parents_of(b).len() - 1] == a);
            } else {
                assert(old(self).children_of(a).contains(b));
                assert(old(self).parents_of(b).contains(a));
                if b == child {
                    let l = old(self).parents_of(b);
                    let k = choose|k: int| 0 <= k < l.len() && l[k] == a;
                    assert(self.parents_of(b)[k] == a);
                }
            }
        }
        assert forall|a: ComponentKey, b: ComponentKey|
            self.contains(b) && #[trigger] self.parents_of(b).contains(a) implies {
            &&& self.contains(a)
            &&& self.children_of(a).contains(b)
        } by {
            assert(old(self).contains(b));
            if a == parent && b == child {
            } else {
                if b == child {
                    let l = self.parents_of(b);
                    let k = choose|k: int| 0 <= k < l.len() && l[k] == a;
                    assert(old(self).parents_of(b)[k] == a);
                }
                assert(old(self).parents_of(b).contains(a));
                assert(old(self).children_of(a).contains(b));
            }
        }
        Ok(())
    }

    /// Unlinks `child` from `parent` (every link between the two). Fails
    /// when `child` is not a child of `parent`.
    pub fn remove_child(&mut self, parent: ComponentKey, child: ComponentKey) -> (r: Result<ComponentKey, Error>)
        requires
            old(self).wf(),
        ensures
            old(self).ordered() ==> final(self).ordered(),
            final(self).hooks() == old(self).hooks(),
            final(self).wf(),
            r is Ok <==> old(self).contains(parent) && old(self).children_of(parent).contains(child),
            !old(self).contains(parent) ==> r == Err::<ComponentKey, Error>(Error::InvalidComponentKey(parent)),
            old(self).contains(parent) && !old(self).children_of(parent).contains(child) ==> r == Err::<
                ComponentKey,
                Error,
            >(Error::InvalidComponentKey(child)),
            r is Err ==> *final(self) == *old(self),
            r is Ok ==> {
                &&& r->Ok_0 == child
                &&& final(self).store_id() == old(self).store_id()
                &&& final(self).next() == old(self).next()
                &&& forall|x: ComponentKey| #[trigger] final(self).contains(x) <==> old(self).contains(x)
                &&& forall|x: ComponentKey| #[trigger] old(self).contains(x) ==> final(self).instance(x) == old(self).instance(x)
                &&& final(self).children_of(parent) == without(old(self).children_of(parent), child)
                &&& final(self).parents_of(child) == without(old(self).parents_of(child), parent)
                &&& forall|x: ComponentKey| old(self).contains(x) && x != parent ==> #[trigger] final(self).children_of(x) == old(self).children_of(x)
                &&& forall|x: ComponentKey| old(self).contains(x) && x != child ==> #[trigger] final(self).parents_of(x) == old(self).parents_of(x)
            },
    {
        if !self.contains_key(parent) {
            return Err(Error::InvalidComponentKey(parent));
        }
        let pi = parent.local.id as usize;
        let found = match &self.children[pi] {
            Some(v) => contains_key_in(v, child),
            None => false,
        };
        if !found {
            return Err(Error::InvalidComponentKey(child));
        }
        assert(old(self).children_of(parent).contains(child));
        assert(old(self).contains(child));
        let ci = child.local.id as usize;
        let cs = match self.children[pi].take() {
            Some(v) => v,
            None => Vec::new(),
        };
        self.children.set(pi, Some(vec_without(&cs, child)));
        let ps = match self.parents[ci].take() {
            Some(v) => v,
            None => Vec::new(),
        };
        self.parents.set(ci, Some(vec_without(&ps, parent)));
        assert forall|x: ComponentKey| #[trigger] self.contains(x) <==> old(self).contains(x) by {
            if x.local.id == parent.local.id || x.local.id == child.local.id {}
        }
        proof {
            lemma_without_contains(old(self).children_of(parent), child);
            lemma_without_contains(old(self).parents_of(child), parent);
        }
        assert forall|a: ComponentKey, b: ComponentKey|
            self.contains(a) && #[trigger] self.children_of(a).contains(b) implies {
            &&& self.contains(b)
            &&& (old(self).ordered() ==> a.local.id < b.local.id)
            &&& self.parents_of(b).contains(a)
        } by {
            assert(old(self).contains(a));
            if a == parent {
                assert(b != child);
            }
            assert(old(self).children_of(a).contains(b));
            assert(old(self).parents_of(b).contains(a));
            if b == child {
                assert(a != parent);
            }
        }
        assert forall|a: ComponentKey, b: ComponentKey|
            self.contains(b) && #[trigger] self.parents_of(b).contains(a) implies {
            &&& self.contains(a)
            &&& self.children_of(a).contains(b)
        } by {
            assert(old(self).contains(b));
            if b == child {
                assert(a != parent);
            }
            assert(old(self).parents_of(b).contains(a));
            assert(old(self).children_of(a).contains(b));
            if a == parent {
                assert(b != child);
            }
        }
        Ok(child)
    }

    /// A copy of `key`'s child list, which callers may hold while they change the store.
    pub fn children(&self, key: ComponentKey) -> (r: Result<Vec<ComponentKey>, Error>)
        requires
            self.wf(),
        ensures
            r is Ok <==> self.contains(key),
            r is Ok ==> r->Ok_0@ == self.children_of(key),
            r is Err ==> r == Err::<Vec<ComponentKey>, Error>(Error::InvalidComponentKey(key)),
    {
        if !self.contains_key(key) {
            return Err(Error::InvalidComponentKey(key));
        }
        match &self.children[key.local.id as usize] {
            Some(v) => Ok(copy_keys(v)),
            None => Err(Error::InvalidComponentKey(key)),
        }
    }

    /// A copy of `key`'s parent list.
    pub fn parents(&self, key: ComponentKey) -> (r: Result<Vec<ComponentKey>, Error>)
        requires
            self.wf(),
        ensures
            r is Ok <==> self.contains(key),
            r is Ok ==> r->Ok_0@ == self.parents_of(key),
            r is Err ==> r == Err::<Vec<ComponentKey>, Error>(Error::InvalidComponentKey(key)),
    {
        if !self.contains_key(key) {
            return Err(Error::InvalidComponentKey(key));
        }
        match &self.parents[key.local.id as usize] {
            Some(v) => Ok(copy_keys(v)),
            None => Err(Error::InvalidComponentKey(key)),
        }
    }

    pub fn child_count(&self, key: ComponentKey) -> (r: Result<usize, Error>)
        requires
            self.wf(),
        ensures
            r is Ok <==> self.contains(key),
            r is Ok ==> r->Ok_0 == self.children_of(key).len(),
            r is Err ==> r == Err::<usize, Error>(Error::InvalidComponentKey(key)),
    {
        if !self.contains_key(key) {
            return Err(Error::InvalidComponentKey(key));
        }
        match &self.children[key.local.id as usize] {
            Some(v) => Ok(v.len()),
            None => Err(Error::InvalidComponentKey(key)),
        }
    }

    /// Unbinds `key` and hands back its payload. The key leaves every other
    /// key's lists; its own children stay bound (unmounting them is the
    /// caller's work).
    pub fn remove(&mut self, key: ComponentKey) -> (r: Result<Instance<C>, Error>)
        requires
            old(self).wf(),
        ensures
            old(self).ordered() ==> final(self).ordered(),
            final(self).hooks() == old(self).hooks(),
            final(self).wf(),
            r is Ok <==> old(self).contains(key),
            r is Err ==> r == Err::<Instance<C>, Error>(Error::InvalidComponentKey(key)) && *final(self) == *old(self),
            r is Ok ==> {
                &&& r->Ok_0 == old(self).instance(key)
                &&& final(self).store_id() == old(self).store_id()
                &&& final(self).next() == old(self).next()
                &&& !final(self).contains(key)
                &&& forall|x: ComponentKey| x != key ==> (#[trigger] final(self).contains(x) <==> old(self).contains(x))
                &&& forall|x: ComponentKey| #[trigger] old(self).contains(x) && x != key ==> {
                    &&& final(self).instance(x) == old(self).instance(x)
                    &&& final(self).children_of(x) == without(old(self).children_of(x), key)
                    &&& final(self).parents_of(x) == without(old(self).parents_of(x), key)
                }
            },
    {
        if !self.contains_key(key) {
            return Err(Error::InvalidComponentKey(key));
        }
        let ki = key.local.id as usize;
        let inst = match self.components[ki].take() {
            Some(v) => v,
            None => { return Err(Error::InvalidComponentKey(key)); },
        };
        let ps = match self.parents[ki].take() {
            Some(v) => v,
            None => Vec::new(),
        };
        let cs = match self.children[ki].take() {
            Some(v) => v,
            None => Vec::new(),
        };
        assert(ps@ == old(self).parents_of(key));
        assert(cs@ == old(self).children_of(key));
        let ghost o = *old(self);
        let mut j: usize = 0;
        while j < ps.len()
            invariant
                o.wf(),
                o.contains(key),
                ps@ == o.parents_of(key),
                0 <= j <= ps@.len(),
                self.id == o.id,
                self.nodes == o.nodes,
                self.hooks == o.hooks,
                self.components@ == o.components@.update(ki as int, None),
                self.parents@ == o.parents@.update(ki as int, None),
                self.children@.len() == o.children@.len(),
                ki == key.local.id,
                self.children@[ki as int] is None,
                forall|i: int| 0 <= i < self.children@.len() && i != ki ==> (#[trigger] self.children@[i] is Some <==> o.children@[i] is Some),
                forall|x: ComponentKey| #[trigger] o.contains(x) && x != key ==> self.children_of(x) == if ps@.subrange(0, j as int).contains(x) {
                    without(o.children_of(x), key)
                } else {
                    o.children_of(x)
                },
            decreases ps@.len() - j,
        {
            let p = ps[j];
            assert(o.parents_of(key).contains(p)) by { assert(ps@[j as int] == p); }
            assert(o.contains(p));
            let pi = p.local.id as usize;
            if p != key {
                let list = match self.children[pi].take() {
                    Some(v) => v,
                    None => Vec::new(),
                };
                let pruned = vec_without(&list, key);
                self.children.set(pi, Some(pruned));
            }
            proof {
                lemma_without_contains(o.children_of(p), key);
                if ps@.subrange(0, j as int).contains(p) {
                    lemma_without_absent(without(o.children_of(p), key), key);
                }
                assert forall|x: ComponentKey| #[trigger] o.contains(x) && x != key implies self.children_of(x) == if ps@.subrange(0, j + 1).contains(x) {
                    without(o.children_of(x), key)
                } else {
                    o.children_of(x)
                } by {
                    assert(ps@.subrange(0, j + 1) == ps@.subrange(0, j as int).push(p));
                    assert(ps@.subrange(0, j + 1).contains(x) <==> ps@.subrange(0, j as int).contains(x) || x == p) by {
                        if ps@.subrange(0, j + 1).contains(x) {
                            let s2 = ps@.subrange(0, j + 1);
                            let k = choose|k: int| 0 <= k < j + 1 && s2[k] == x;
                            if k < j {
                                assert(ps@.subrange(0, j as int)[k] == x);
                            }
                        }
                        if ps@.subrange(0, j as int).contains(x) {
                            let s1 = ps@.subrange(0, j as int);
                            let k = choose|k: int| 0 <= k < j && s1[k] == x;
                            assert(ps@.subrange(0, j + 1)[k] == x);
                        }
                        if x == p {
                            assert(ps@.subrange(0, j + 1)[j as int] == x);
                        }
                    }
                    if x.local.id == p.local.id {
                        assert(x == p);
                    }
                }
            }
            j = j + 1;
        }
        proof {
            assert(ps@.subrange(0, ps@.len() as int) == ps@);
            assert forall|x: ComponentKey| #[trigger] o.contains(x) && x != key implies self.children_of(x) == without(o.children_of(x), key) by {
                if !ps@.contains(x) {
                    assert(!o.children_of(x).contains(key));
                    lemma_without_absent(o.children_of(x), key);
                }
            }
        }
        let mut j: usize = 0;
        while j < cs.len()
            invariant
                o.wf(),
                o.contains(key),
                cs@ == o.children_of(key),
                0 <= j <= cs@.len(),
                self.id == o.id,
                self.nodes == o.nodes,
                self.hooks == o.hooks,
                self.components@ == o.components@.update(ki as int, None),
                self.parents@.len() == o.parents@.len(),
                self.children@.len() == o.children@.len(),
                ki == key.local.id,
                self.children@[ki as int] is None,
                self.parents@[ki as int] is None,
                forall|i: int| 0 <= i < self.children@.len() && i != ki ==> (#[trigger] self.children@[i] is Some <==> o.children@[i] is Some),
                forall|i: int| 0 <= i < self.parents@.len() && i != ki ==> (#[trigger] self.parents@[i] is Some <==> o.parents@[i] is Some),
                forall|x: ComponentKey| #[trigger] o.contains(x) && x != key ==> self.children_of(x) == without(o.children_of(x), key),
                forall|x: ComponentKey| #[trigger] o.contains(x) && x != key ==> self.parents_of(x) == if cs@.subrange(0, j as int).contains(x) {
                    without(o.parents_of(x), key)
                } else {
                    o.parents_of(x)
                },
            decreases cs@.len() - j,
        {
            let c = cs[j];
            assert(o.children_of(key).contains(c)) by { assert(cs@[j as int] == c); }
            assert(o.contains(c));
            let ci = c.local.id as usize;
            if c != key {
                let list = match self.parents[ci].take() {
                    Some(v) => v,
                    None => Vec::new(),
                };
                let pruned = vec_without(&list, key);
                self.parents.set(ci, Some(pruned));
            }
            proof {
                lemma_without_contains(o.parents_of(c), key);
                if cs@.subrange(0, j as int).contains(c) {
                    lemma_without_absent(without(o.parents_of(c), key), key);
                }
                assert forall|x: ComponentKey| #[trigger] o.contains(x) && x != key implies self.parents_of(x) == if cs@.subrange(0, j + 1).contains(x) {
                    without(o.parents_of(x), key)
                } else {
                    o.parents_of(x)
                } by {
                    assert(cs@.subrange(0, j + 1).contains(x) <==> cs@.subrange(0, j as int).contains(x) || x == c) by {
                        if cs@.subrange(0, j + 1).contains(x) {
                            let s2 = cs@.subrange(0, j + 1);
                            let k = choose|k: int| 0 <= k < j + 1 && s2[k] == x;
                            if k < j {
                                assert(cs@.subrange(0, j as int)[k] == x);
                            }
                        }
                        if cs@.subrange(0, j as int).contains(x) {
                            let s1 = cs@.subrange(0, j as int);
                            let k = choose|k: int| 0 <= k < j && s1[k] == x;
                            assert(cs@.subrange(0, j + 1)[k] == x);
                        }
                        if x == c {
                            assert(cs@.subrange(0, j + 1)[j as int] == x);
                        }
                    }
                    if x.local.id == c.local.id {
                        assert(x == c);
                    }
                }
            }
            j = j + 1;
        }
        proof {
            assert(cs@.subrange(0, cs@.len() as int) == cs@);
            assert forall|x: ComponentKey| #[trigger] o.contains(x) && x != key implies {
                &&& self.parents_of(x) == without(o.parents_of(x), key)
            } by {
                if !cs@.contains(x) {
                    assert(!o.parents_of(x).contains(key));
                    lemma_without_absent(o.parents_of(x), key);
                }
            }
            assert forall|x: ComponentKey| x != key implies (#[trigger] self.contains(x) <==> o.contains(x)) by {
                if x.local.id == key.local.id && x.instance == key.instance {
                    assert(x == key);
                }
            }
            assert forall|a: ComponentKey, b: ComponentKey|
                self.contains(a) && #[trigger] self.children_of(a).contains(b) implies {
                &&& self.contains(b)
                &&& (o.ordered() ==> a.local.id < b.local.id)
                &&& self.parents_of(b).contains(a)
            } by {
                assert(a != key);
                lemma_without_contains(o.children_of(a), key);
                assert(o.children_of(a).contains(b));
                assert(b != key);
                lemma_without_contains(o.parents_of(b), key);
            }
            assert forall|a: ComponentKey, b: ComponentKey|
                self.contains(b) && #[trigger] self.parents_of(b).contains(a) implies {
                &&& self.contains(a)
                &&& self.children_of(a).contains(b)
            } by {
                assert(b != key);
                lemma_without_contains(o.parents_of(b), key);
                assert(o.parents_of(b).contains(a));
                assert(a != key);
                lemma_without_contains(o.children_of(a), key);
            }
        }
        Ok(inst)
    }
}

impl<C: Component> ComponentStore<C> {
    /// Runs the component's mount hook and records it; the arena's shape stays as it is.
    pub fn did_mount(&mut self, key: ComponentKey)
        requires
            old(self).wf(),
            old(self).contains(key),
        ensures
            old(self).ordered() ==> final(self).ordered(),
            final(self).hooks() == old(self).hooks().push(Hook::DidMount(key)),
            final(self).wf(),
            final(self).same_shape(old(self)),
            final(self).others_unchanged(old(self), key),
    {
        let i = key.local.id as usize;
        let slot = self.components[i].take();
        match slot {
            Some(mut inst) => {
                inst.component.component_did_mount();
                self.components.set(i, Some(inst));
                self.hooks = Ghost(self.hooks@.push(Hook::DidMount(key)));
            },
            None => {},
        }
        proof { self.lemma_same_shape_wf(old(self)); }
    }

    /// Runs the component's unmount hook and records it; the arena's shape stays as it is.
    pub fn will_unmount(&mut self, key: ComponentKey)
        requires
            old(self).wf(),
            old(self).contains(key),
        ensures
            old(self).ordered() ==> final(self).ordered(),
            final(self).hooks() == old(self).hooks().push(Hook::WillUnmount(key)),
            final(self).wf(),
            final(self).same_shape(old(self)),
            final(self).others_unchanged(old(self), key),
    {
        let i = key.local.id as usize;
        let slot = self.components[i].take();
        match slot {
            Some(mut inst) => {
                inst.component.component_will_unmount();
                self.components.set(i, Some(inst));
                self.hooks = Ghost(self.hooks@.push(Hook::WillUnmount(key)));
            },
            None => {},
        }
        proof { self.lemma_same_shape_wf(old(self)); }
    }
}

} // verus!
