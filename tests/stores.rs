use alchemy_reconciler::components::{Fragment, GenericRootView};
use alchemy_reconciler::error::{RenderEngineError, RenderError};
use alchemy_reconciler::key::{Allocator, ComponentKey};
use alchemy_reconciler::layout::{Error as LayoutError, LayoutStore};
use alchemy_reconciler::layout_id::{Allocator as LayoutAllocator, Id as LayoutId};
use alchemy_reconciler::rsx::{is_fragment_tag, text_content, VirtualText, RSX};
use alchemy_reconciler::storage::{ComponentStore, Instance};
use alchemy_reconciler::style_key::{StyleKey, BAD_HEAD, BAD_TAIL, EMPTY_KEY};
use alchemy_reconciler::traits::Component;

struct Plain;

impl Component for Plain {
    type Props = ();
    type NativeNode = ();

    fn new(_key: ComponentKey, _props: &()) -> Plain {
        Plain
    }

    fn render(&self, _children: &Vec<RSX<()>>) -> Result<RSX<()>, RenderError> {
        Ok(RSX::Empty)
    }
}

fn instance(tag: &str) -> Instance<Plain> {
    Instance { tag: tag.to_string(), style_keys: vec![], component: Plain, layout: None }
}

#[test]
fn allocator_counts_up_from_one() {
    let mut a = Allocator::new();
    assert_eq!(a.allocate().id, 1);
    assert_eq!(a.allocate().id, 2);
    assert_eq!(a.allocate().id, 3);
    assert!(a.has_capacity());
}

#[test]
fn placeholder_is_zero() {
    let p = ComponentKey::placeholder();
    assert_eq!(p.instance.id, 0);
    assert_eq!(p.local.id, 0);
}

#[test]
fn layout_ids_reuse_freed_slots_with_a_new_generation() {
    let mut a = LayoutAllocator::new();
    let first = a.allocate();
    let second = a.allocate();
    assert_eq!((first.id, first.generation), (0, 0));
    assert_eq!((second.id, second.generation), (1, 0));
    a.free(&[first, second]);
    let again = a.allocate();
    assert_eq!(again, LayoutId { id: 1, generation: 1 });
    let again2 = a.allocate();
    assert_eq!(again2, LayoutId { id: 0, generation: 1 });
    let fresh = a.allocate();
    assert_eq!(fresh, LayoutId { id: 2, generation: 0 });
}

#[test]
fn keys_of_two_stores_never_collide() {
    let mut ids = Allocator::new();
    let mut s1: ComponentStore<Plain> = ComponentStore::new(&mut ids);
    let mut s2: ComponentStore<Plain> = ComponentStore::new(&mut ids);
    let mut seen: Vec<ComponentKey> = vec![];
    for _ in 0..5 {
        seen.push(s1.new_key());
        seen.push(s2.new_key());
    }
    for i in 0..seen.len() {
        for j in 0..seen.len() {
            if i != j {
                assert_ne!(seen[i], seen[j]);
            }
        }
    }
    assert_ne!(seen[0], ComponentKey::placeholder());
}

#[test]
fn insert_get_and_double_insert() {
    let mut ids = Allocator::new();
    let mut s: ComponentStore<Plain> = ComponentStore::new(&mut ids);
    let k = s.new_key();
    assert!(s.get(k).is_err());
    assert!(s.insert(k, instance("A")).is_ok());
    assert_eq!(s.get(k).ok().unwrap().tag, "A");
    assert_eq!(s.insert(k, instance("B")).err(), Some(RenderEngineError::InvalidComponentKey(k)));
    assert_eq!(s.get(k).ok().unwrap().tag, "A");
    let stranger = ComponentKey::placeholder();
    assert_eq!(s.insert(stranger, instance("C")).err(), Some(RenderEngineError::InvalidComponentKey(stranger)));
}

#[test]
fn adjacency_stays_symmetric() {
    let mut ids = Allocator::new();
    let mut s: ComponentStore<Plain> = ComponentStore::new(&mut ids);
    let a = s.new_key();
    s.insert(a, instance("a")).unwrap();
    let b = s.new_key();
    s.insert(b, instance("b")).unwrap();
    let c = s.new_key();
    s.insert(c, instance("c")).unwrap();
    s.add_child(a, b).unwrap();
    s.add_child(a, c).unwrap();
    s.add_child(b, c).unwrap();
    assert_eq!(s.children(a).unwrap(), vec![b, c]);
    assert_eq!(s.parents(c).unwrap(), vec![a, b]);
    assert_eq!(s.child_count(a).unwrap(), 2);
    for x in [a, b, c] {
        for y in [a, b, c] {
            assert_eq!(s.children(x).unwrap().contains(&y), s.parents(y).unwrap().contains(&x));
        }
    }
    let removed = s.remove(b).ok().unwrap();
    assert_eq!(removed.tag, "b");
    assert!(s.get(b).is_err());
    assert_eq!(s.children(a).unwrap(), vec![c]);
    assert_eq!(s.parents(c).unwrap(), vec![a]);
    assert_eq!(s.remove(b).err(), Some(RenderEngineError::InvalidComponentKey(b)));
}

#[test]
fn add_child_reports_the_missing_key() {
    let mut ids = Allocator::new();
    let mut s: ComponentStore<Plain> = ComponentStore::new(&mut ids);
    let a = s.new_key();
    s.insert(a, instance("a")).unwrap();
    let b = s.new_key();
    assert_eq!(s.add_child(a, b).err(), Some(RenderEngineError::InvalidComponentKey(b)));
    s.insert(b, instance("b")).unwrap();
    let stranger = ComponentKey::placeholder();
    assert_eq!(s.add_child(stranger, b).err(), Some(RenderEngineError::InvalidComponentKey(stranger)));
}

#[test]
fn insert_child_places_at_index() {
    let mut ids = Allocator::new();
    let mut s: ComponentStore<Plain> = ComponentStore::new(&mut ids);
    let p = s.new_key();
    s.insert(p, instance("p")).unwrap();
    let x = s.new_key();
    s.insert(x, instance("x")).unwrap();
    let y = s.new_key();
    s.insert(y, instance("y")).unwrap();
    let z = s.new_key();
    s.insert(z, instance("z")).unwrap();
    s.add_child(p, x).unwrap();
    s.add_child(p, y).unwrap();
    s.insert_child(p, 1, z).unwrap();
    assert_eq!(s.children(p).unwrap(), vec![x, z, y]);
    assert_eq!(s.parents(z).unwrap(), vec![p]);
}

#[test]
fn layout_links_and_dirty_flags() {
    let mut ids = LayoutAllocator::new();
    let mut t = LayoutStore::new(&mut ids);
    let a = t.new_node();
    let b = t.new_node();
    let c = t.new_node();
    t.add_child(a, b).unwrap();
    t.add_child(b, c).unwrap();
    assert_eq!(t.children(a).unwrap(), vec![b]);
    assert_eq!(t.child_count(b).unwrap(), 1);
    assert!(t.dirty(a).unwrap());
    t.mark_dirty(c).unwrap();
    assert!(t.dirty(a).unwrap() && t.dirty(b).unwrap() && t.dirty(c).unwrap());
    assert_eq!(t.remove_child(a, c).err(), Some(LayoutError::InvalidNode(c)));
    assert_eq!(t.remove_child(a, b).ok(), Some(b));
    assert!(t.children(a).unwrap().is_empty());
    let mut other = LayoutStore::new(&mut ids);
    let foreign = other.new_node();
    assert_eq!(t.children(foreign).err(), Some(LayoutError::InvalidNode(foreign)));
}

#[test]
fn style_keys_are_checked() {
    assert!(StyleKey::try_new("button-primary2".to_string()).is_ok());
    assert!(StyleKey::try_new("été".to_string()).is_ok());
    assert_eq!(StyleKey::try_new(String::new()).err(), Some(EMPTY_KEY));
    assert_eq!(StyleKey::try_new("1abc".to_string()).err(), Some(BAD_HEAD));
    assert_eq!(StyleKey::try_new("-abc".to_string()).err(), Some(BAD_HEAD));
    assert_eq!(StyleKey::try_new("a_b".to_string()).err(), Some(BAD_TAIL));
    assert_eq!(StyleKey::try_new("a b".to_string()).err(), Some(BAD_TAIL));
    assert_eq!(StyleKey::new("root".to_string()).as_str(), "root");
    assert_eq!(StyleKey::new("x".to_string()).copy(), StyleKey::new("x".to_string()));
}

#[test]
fn fragment_tag_is_recognised() {
    assert!(is_fragment_tag(&"Fragment".to_string()));
    assert!(!is_fragment_tag(&"fragment".to_string()));
    assert!(!is_fragment_tag(&"View".to_string()));
}

#[test]
fn builtin_components_render_nothing() {
    let f = Fragment::new(ComponentKey::placeholder(), &Fragment::default_props());
    assert!(!f.has_native_backing_node());
    assert!(matches!(f.render(&vec![]), Ok(RSX::Empty)));
    let g = GenericRootView::new(ComponentKey::placeholder(), &GenericRootView::get_default_props());
    assert!(matches!(g.render(&vec![]), Ok(RSX::Empty)));
}

#[test]
fn text_nodes_keep_their_text() {
    assert_eq!(VirtualText::new("hi".to_string()).0, "hi");
    match RSX::<()>::text("yo".to_string()) {
        RSX::VirtualText(t) => assert_eq!(t.0, "yo"),
        _ => panic!("not text"),
    }
}

#[test]
fn text_content_joins_texts_in_order() {
    let children: Vec<RSX<()>> = vec![
        RSX::text("he".to_string()),
        RSX::Empty,
        RSX::node("View".to_string(), vec![], (), vec![RSX::text("hidden".to_string())]),
        RSX::text("llo".to_string()),
    ];
    assert_eq!(text_content(&children), "hello");
    assert_eq!(text_content::<()>(&vec![]), "");
}

#[test]
fn remove_child_unlinks_both_sides() {
    let mut ids = Allocator::new();
    let mut s: ComponentStore<Plain> = ComponentStore::new(&mut ids);
    let a = s.new_key();
    s.insert(a, instance("a")).unwrap();
    let b = s.new_key();
    s.insert(b, instance("b")).unwrap();
    s.add_child(a, b).unwrap();
    assert_eq!(s.remove_child(a, b).ok(), Some(b));
    assert!(s.children(a).unwrap().is_empty());
    assert!(s.parents(b).unwrap().is_empty());
    assert_eq!(s.remove_child(a, b).err(), Some(RenderEngineError::InvalidComponentKey(b)));
    assert!(s.get(b).is_ok());
}

#[test]
fn an_older_key_can_be_linked_under_a_younger_one() {
    let mut ids = Allocator::new();
    let mut s: ComponentStore<Plain> = ComponentStore::new(&mut ids);
    let a = s.new_key();
    s.insert(a, instance("a")).unwrap();
    let b = s.new_key();
    s.insert(b, instance("b")).unwrap();
    s.add_child(b, a).unwrap();
    assert_eq!(s.children(b).unwrap(), vec![a]);
    assert_eq!(s.parents(a).unwrap(), vec![b]);
    let removed = s.remove(b).ok().unwrap();
    assert_eq!(removed.tag, "b");
    assert!(s.parents(a).unwrap().is_empty());
}
