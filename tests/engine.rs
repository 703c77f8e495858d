use std::cell::RefCell;
use std::rc::Rc;

use alchemy_reconciler::error::{RenderEngineError, RenderError};
use alchemy_reconciler::key::{Allocator, ComponentKey};
use alchemy_reconciler::layout_id::Allocator as LayoutAllocator;
use alchemy_reconciler::reconciler::{root_children, RenderEngine};
use alchemy_reconciler::rsx::{VirtualNode, VirtualText, RSX};
use alchemy_reconciler::style_key::StyleKey;
use alchemy_reconciler::traits::Component;

type Log = Rc<RefCell<Vec<String>>>;

#[derive(Clone, Copy, PartialEq, Debug)]
enum Kind {
    Window,
    View,
    Text,
    Composite,
    Endless,
}

#[derive(Clone)]
struct Props {
    kind: Kind,
    name: String,
    log: Log,
}

struct Widget {
    kind: Kind,
    name: String,
    key: ComponentKey,
    log: Log,
    attached: RefCell<Vec<u32>>,
}

fn copy_tree(t: &RSX<Props>) -> RSX<Props> {
    match t {
        RSX::Empty => RSX::Empty,
        RSX::VirtualText(s) => RSX::VirtualText(s.clone()),
        RSX::VirtualNode(n) => RSX::VirtualNode(VirtualNode {
            tag: n.tag.clone(),
            styles: n.styles.clone(),
            props: n.props.clone(),
            children: n.children.iter().map(copy_tree).collect(),
        }),
    }
}

impl Component for Widget {
    type Props = Props;
    type NativeNode = u32;

    fn new(key: ComponentKey, props: &Props) -> Widget {
        Widget {
            kind: props.kind,
            name: props.name.clone(),
            key,
            log: props.log.clone(),
            attached: RefCell::new(vec![]),
        }
    }

    fn has_native_backing_node(&self) -> bool {
        matches!(self.kind, Kind::Window | Kind::View | Kind::Text)
    }

    fn borrow_native_backing_node(&self) -> Option<u32> {
        if self.has_native_backing_node() {
            Some(self.key.local.id)
        } else {
            None
        }
    }

    fn append_child_node(&self, node: u32) {
        self.attached.borrow_mut().push(node);
    }

    fn render(&self, children: &Vec<RSX<Props>>) -> Result<RSX<Props>, RenderError> {
        let props = |kind: Kind, name: &str| Props { kind, name: name.to_string(), log: self.log.clone() };
        match self.kind {
            Kind::Window | Kind::View => Ok(RSX::node(
                "Fragment".to_string(),
                vec![],
                props(Kind::View, "Fragment"),
                children.iter().map(copy_tree).collect(),
            )),
            Kind::Text => Ok(RSX::Empty),
            Kind::Composite => Ok(RSX::node(
                "View".to_string(),
                vec![],
                props(Kind::View, &format!("{}-inner", self.name)),
                vec![],
            )),
            Kind::Endless => Ok(RSX::node(
                "Endless".to_string(),
                vec![],
                props(Kind::Endless, "again"),
                vec![],
            )),
        }
    }

    fn component_did_mount(&mut self) {
        self.log.borrow_mut().push(format!("mount {}", self.name));
    }

    fn component_will_unmount(&mut self) {
        self.log.borrow_mut().push(format!("unmount {}", self.name));
    }
}

fn node(log: &Log, kind: Kind, tag: &str, name: &str, children: Vec<RSX<Props>>) -> RSX<Props> {
    RSX::node(
        tag.to_string(),
        vec![StyleKey::new("a".to_string())],
        Props { kind, name: name.to_string(), log: log.clone() },
        children,
    )
}

fn setup() -> (RenderEngine<Widget>, ComponentKey, Log) {
    let log: Log = Rc::new(RefCell::new(vec![]));
    let mut keys = Allocator::new();
    let mut layouts = LayoutAllocator::new();
    let mut engine = RenderEngine::new(&mut keys, &mut layouts);
    let props = Props { kind: Kind::Window, name: "window".to_string(), log: log.clone() };
    let root = engine.register_root_component(Widget::new(ComponentKey::placeholder(), &props)).unwrap();
    (engine, root, log)
}

fn tags(engine: &RenderEngine<Widget>, key: ComponentKey) -> Vec<String> {
    engine
        .children(key)
        .unwrap()
        .iter()
        .map(|k| engine.get(*k).unwrap().tag.clone())
        .collect()
}

fn layout_of(engine: &RenderEngine<Widget>, key: ComponentKey) -> Option<alchemy_reconciler::layout::LayoutNode> {
    engine.get(key).unwrap().layout
}

#[test]
fn end_to_end_three_passes() {
    let (mut engine, root, log) = setup();

    // Pass one: a lone View.
    engine.diff_and_render_root(root, node(&log, Kind::View, "View", "view", vec![])).unwrap();
    let kids = engine.children(root).unwrap();
    assert_eq!(kids.len(), 1);
    let view = kids[0];
    assert_eq!(engine.get(view).unwrap().tag, "View");
    let root_layout = layout_of(&engine, root).unwrap();
    let view_layout = layout_of(&engine, view).unwrap();
    assert_eq!(engine.layouts().children(root_layout).unwrap(), vec![view_layout]);
    assert_eq!(*log.borrow(), vec!["mount view".to_string()]);

    // Pass two: the same View, now with a Text child.
    let text = node(&log, Kind::Text, "Text", "text", vec![RSX::VirtualText(VirtualText::new("hi".to_string()))]);
    engine.diff_and_render_root(root, node(&log, Kind::View, "View", "view", vec![text])).unwrap();
    assert_eq!(engine.children(root).unwrap(), vec![view]);
    let view_kids = engine.children(view).unwrap();
    assert_eq!(view_kids.len(), 1);
    let text_key = view_kids[0];
    assert_eq!(engine.get(text_key).unwrap().tag, "Text");
    let text_layout = layout_of(&engine, text_key).unwrap();
    assert_eq!(engine.layouts().children(view_layout).unwrap(), vec![text_layout]);
    assert_eq!(*log.borrow(), vec!["mount view".to_string(), "mount text".to_string()]);

    // Pass three: a Label at the same position replaces both.
    engine.diff_and_render_root(root, node(&log, Kind::View, "Label", "label", vec![])).unwrap();
    let kids = engine.children(root).unwrap();
    assert_eq!(kids.len(), 1);
    let label = kids[0];
    assert_ne!(label, view);
    assert_eq!(engine.get(label).unwrap().tag, "Label");
    assert!(engine.get(view).is_err());
    assert!(engine.get(text_key).is_err());
    assert_eq!(
        log.borrow()[2..].to_vec(),
        vec!["unmount text".to_string(), "unmount view".to_string(), "mount label".to_string()]
    );
    let label_layout = layout_of(&engine, label).unwrap();
    assert_eq!(engine.layouts().children(root_layout).unwrap(), vec![label_layout]);
}

#[test]
fn same_tree_twice_changes_nothing() {
    let (mut engine, root, log) = setup();
    let tree = |log: &Log| {
        node(log, Kind::View, "View", "outer", vec![
            node(log, Kind::View, "View", "inner", vec![]),
            node(log, Kind::Text, "Text", "text", vec![RSX::text("t".to_string())]),
        ])
    };
    engine.diff_and_render_root(root, tree(&log)).unwrap();
    let first = engine.children(root).unwrap();
    let first_inner = engine.children(first[0]).unwrap();
    let events = log.borrow().len();
    engine.diff_and_render_root(root, tree(&log)).unwrap();
    assert_eq!(engine.children(root).unwrap(), first);
    assert_eq!(engine.children(first[0]).unwrap(), first_inner);
    assert_eq!(log.borrow().len(), events);
}

#[test]
fn hooks_fire_inward_out() {
    let (mut engine, root, log) = setup();
    let tree = node(&log, Kind::View, "View", "a", vec![node(&log, Kind::View, "View", "b", vec![node(
        &log,
        Kind::Text,
        "Text",
        "c",
        vec![],
    )])]);
    engine.diff_and_render_root(root, tree).unwrap();
    assert_eq!(*log.borrow(), vec!["mount c".to_string(), "mount b".to_string(), "mount a".to_string()]);
    engine.diff_and_render_root(root, RSX::Empty).unwrap();
    assert_eq!(log.borrow()[3..].to_vec(), vec!["unmount c".to_string(), "unmount b".to_string(), "unmount a".to_string()]);
    assert!(engine.children(root).unwrap().is_empty());
}

#[test]
fn root_fragment_is_hoisted() {
    let (mut engine, root, log) = setup();
    let frag = node(&log, Kind::View, "Fragment", "frag", vec![
        node(&log, Kind::View, "X", "x", vec![]),
        node(&log, Kind::View, "Y", "y", vec![]),
    ]);
    engine.diff_and_render_root(root, frag).unwrap();
    assert_eq!(tags(&engine, root), vec!["X".to_string(), "Y".to_string()]);
    assert!(!log.borrow().iter().any(|e| e.contains("frag")));

    let x = engine.children(root).unwrap()[0];
    assert_eq!(engine.children(x).unwrap().len(), 0);
}

#[test]
fn root_children_cases() {
    let log: Log = Rc::new(RefCell::new(vec![]));
    let frag = node(&log, Kind::View, "Fragment", "f", vec![
        node(&log, Kind::View, "X", "x", vec![]),
        node(&log, Kind::View, "Y", "y", vec![]),
    ]);
    let hoisted = root_children(frag);
    assert_eq!(hoisted.len(), 2);
    assert!(matches!(&hoisted[0], RSX::VirtualNode(n) if n.tag == "X"));
    let single = root_children(node(&log, Kind::View, "View", "v", vec![]));
    assert_eq!(single.len(), 1);
    assert!(matches!(&single[0], RSX::VirtualNode(n) if n.tag == "View"));
    assert_eq!(root_children::<Props>(RSX::text("t".to_string())).len(), 0);
    assert_eq!(root_children::<Props>(RSX::Empty).len(), 0);
}

#[test]
fn composite_passes_layout_linkage_through() {
    let (mut engine, root, log) = setup();
    engine.diff_and_render_root(root, node(&log, Kind::Composite, "Card", "card", vec![])).unwrap();
    let card = engine.children(root).unwrap()[0];
    assert!(layout_of(&engine, card).is_none());
    let inner = engine.children(card).unwrap()[0];
    let inner_layout = layout_of(&engine, inner).unwrap();
    let root_layout = layout_of(&engine, root).unwrap();
    assert_eq!(engine.layouts().children(root_layout).unwrap(), vec![inner_layout]);
    assert_eq!(*engine.get(root).unwrap().component.attached.borrow(), vec![inner.local.id]);
}

#[test]
fn styled_nodes_come_in_pre_order() {
    let (mut engine, root, log) = setup();
    let walk = engine
        .diff_and_render_root(root, node(&log, Kind::View, "View", "v", vec![
            node(&log, Kind::Composite, "Card", "card", vec![]),
            node(&log, Kind::Text, "Text", "t", vec![]),
        ]))
        .unwrap();
    let view = engine.children(root).unwrap()[0];
    let kids = engine.children(view).unwrap();
    let inner = engine.children(kids[0]).unwrap()[0];
    let order: Vec<ComponentKey> = walk.iter().map(|(k, _)| *k).collect();
    assert_eq!(order, vec![root, view, inner, kids[1]]);
    for (k, l) in walk {
        assert_eq!(layout_of(&engine, k), Some(l));
    }
}

#[test]
fn shorter_list_unmounts_the_tail() {
    let (mut engine, root, log) = setup();
    engine
        .diff_and_render_root(root, node(&log, Kind::View, "View", "v", vec![
            node(&log, Kind::Text, "Text", "one", vec![]),
            node(&log, Kind::Text, "Text", "two", vec![]),
        ]))
        .unwrap();
    let view = engine.children(root).unwrap()[0];
    let before = engine.children(view).unwrap();
    let view_layout = layout_of(&engine, view).unwrap();
    engine
        .diff_and_render_root(root, node(&log, Kind::View, "View", "v", vec![node(&log, Kind::Text, "Text", "one", vec![])]))
        .unwrap();
    assert_eq!(engine.children(view).unwrap(), vec![before[0]]);
    assert!(engine.get(before[1]).is_err());
    assert_eq!(log.borrow().last().unwrap(), "unmount two");
    let first_layout = layout_of(&engine, before[0]).unwrap();
    assert_eq!(engine.layouts().children(view_layout).unwrap(), vec![first_layout]);
}

#[test]
fn reordering_is_a_replace_cascade() {
    let (mut engine, root, log) = setup();
    engine
        .diff_and_render_root(root, node(&log, Kind::View, "View", "v", vec![
            node(&log, Kind::View, "A", "a", vec![]),
            node(&log, Kind::View, "B", "b", vec![]),
        ]))
        .unwrap();
    let view = engine.children(root).unwrap()[0];
    let before = engine.children(view).unwrap();
    engine
        .diff_and_render_root(root, node(&log, Kind::View, "View", "v", vec![
            node(&log, Kind::View, "B", "b", vec![]),
            node(&log, Kind::View, "A", "a", vec![]),
        ]))
        .unwrap();
    let after = engine.children(view).unwrap();
    assert_eq!(tags(&engine, view), vec!["B".to_string(), "A".to_string()]);
    assert!(after.iter().all(|k| !before.contains(k)));
}

#[test]
fn non_native_root_is_refused() {
    let log: Log = Rc::new(RefCell::new(vec![]));
    let mut keys = Allocator::new();
    let mut layouts = LayoutAllocator::new();
    let mut engine: RenderEngine<Widget> = RenderEngine::new(&mut keys, &mut layouts);
    let props = Props { kind: Kind::Composite, name: "c".to_string(), log };
    let r = engine.register_root_component(Widget::new(ComponentKey::placeholder(), &props));
    assert_eq!(r.err(), Some(RenderEngineError::InvalidRootComponent));
}

#[test]
fn unknown_root_key_is_refused() {
    let (mut engine, _root, log) = setup();
    let bogus = ComponentKey::placeholder();
    let r = engine.diff_and_render_root(bogus, node(&log, Kind::View, "View", "v", vec![]));
    assert_eq!(r.err(), Some(RenderEngineError::InvalidComponentKey(bogus)));
}

#[test]
fn endless_render_stops_at_the_depth_limit() {
    let (mut engine, root, log) = setup();
    let r = engine.diff_and_render_root(root, node(&log, Kind::Endless, "Endless", "e", vec![]));
    assert_eq!(r.err(), Some(RenderEngineError::TreeTooDeep));
}

#[test]
fn error_messages_are_not_empty() {
    for e in [
        RenderEngineError::InvalidKey,
        RenderEngineError::InvalidRootComponent,
        RenderEngineError::InvalidComponentKey(ComponentKey::placeholder()),
        RenderEngineError::KeysExhausted,
        RenderEngineError::TreeTooDeep,
    ] {
        assert!(!e.message().is_empty());
    }
}

#[test]
fn nested_replace_mounts_in_the_same_position() {
    let (mut engine, root, log) = setup();
    engine
        .diff_and_render_root(root, node(&log, Kind::View, "View", "v", vec![
            node(&log, Kind::View, "A", "a", vec![]),
            node(&log, Kind::View, "B", "b", vec![]),
        ]))
        .unwrap();
    let view = engine.children(root).unwrap()[0];
    let before = engine.children(view).unwrap();
    engine
        .diff_and_render_root(root, node(&log, Kind::View, "View", "v", vec![
            node(&log, Kind::View, "C", "c", vec![]),
            node(&log, Kind::View, "B", "b", vec![]),
        ]))
        .unwrap();
    let after = engine.children(view).unwrap();
    assert_eq!(tags(&engine, view), vec!["C".to_string(), "B".to_string()]);
    assert_ne!(after[0], before[0]);
    assert_eq!(after[1], before[1]);
    assert!(engine.get(before[0]).is_err());
    let view_layout = layout_of(&engine, view).unwrap();
    let mut linked = engine.layouts().children(view_layout).unwrap();
    linked.sort_by_key(|n| n.local.id);
    let mut expected = vec![layout_of(&engine, after[0]).unwrap(), layout_of(&engine, after[1]).unwrap()];
    expected.sort_by_key(|n| n.local.id);
    assert_eq!(linked, expected);
}

#[test]
fn text_in_place_of_a_node_keeps_the_old_child_but_drops_its_children() {
    let (mut engine, root, log) = setup();
    engine
        .diff_and_render_root(root, node(&log, Kind::View, "View", "v", vec![node(&log, Kind::View, "View", "inner", vec![
            node(&log, Kind::Text, "Text", "t", vec![]),
        ])]))
        .unwrap();
    let view = engine.children(root).unwrap()[0];
    let inner = engine.children(view).unwrap()[0];
    engine
        .diff_and_render_root(root, node(&log, Kind::View, "View", "v", vec![RSX::text("plain".to_string())]))
        .unwrap();
    assert_eq!(engine.children(view).unwrap(), vec![inner]);
    assert!(engine.children(inner).unwrap().is_empty());
    assert_eq!(log.borrow().last().unwrap(), "unmount t");
}
