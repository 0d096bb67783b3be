use native_core::dom::{BuildError, RealDom, ROOT_ID};
use native_core::mask::NodeMask;
use native_core::node::{AttributeValue, ElementNode, NodeType};
use native_core::passes::{PassDescriptor, PassDirection};

fn element(tag: &str) -> NodeType {
    NodeType::Element(ElementNode {
        tag: tag.to_string(),
        attributes: Vec::new(),
        listeners: Vec::new(),
    })
}

fn pass(
    id: u64,
    attrs: &[&str],
    parent_deps: &[u64],
    child_deps: &[u64],
    node_deps: &[u64],
    direction: PassDirection,
) -> PassDescriptor {
    PassDescriptor {
        id,
        mask: NodeMask::for_attributes(attrs.iter().map(|s| s.to_string()).collect()),
        parent_dependencies: parent_deps.to_vec(),
        child_dependencies: child_deps.to_vec(),
        node_dependencies: node_deps.to_vec(),
        direction,
    }
}

fn count_in_trace(trace: &[(usize, usize)], p: usize, n: usize) -> usize {
    trace.iter().filter(|e| **e == (p, n)).count()
}

#[test]
fn height_invariant_after_mutations() {
    let mut dom = RealDom::new(vec![]).ok().unwrap();
    let root = dom.root_id();
    assert_eq!(root, ROOT_ID);
    assert_eq!(dom.height(root), Some(0));
    let a = dom.create_node(element("a"));
    let b = dom.create_node(element("b"));
    let c = dom.create_node(element("c"));
    dom.add_child(root, a);
    dom.add_child(a, b);
    dom.add_child(b, c);
    assert_eq!(dom.height(a), Some(1));
    assert_eq!(dom.height(b), Some(2));
    assert_eq!(dom.height(c), Some(3));
    // move the subtree rooted at b directly under the root
    dom.add_child(root, b);
    assert_eq!(dom.height(b), Some(1));
    assert_eq!(dom.height(c), Some(2));
    assert_eq!(dom.parent_id(b), Some(root));
    assert_eq!(dom.height(99), None);
}

#[test]
fn single_recomputation_per_cycle() {
    let passes = vec![
        pass(1, &["color"], &[], &[], &[], PassDirection::AnyOrder),
        pass(2, &["width"], &[], &[], &[], PassDirection::AnyOrder),
    ];
    let mut dom = RealDom::new(passes).ok().unwrap();
    let root = dom.root_id();
    let a = dom.create_node(element("a"));
    dom.add_child(root, a);
    let (_, trace) = dom.update_state();
    // every (pass, node) pair that was dirty ran exactly once
    for p in 0..2 {
        assert_eq!(count_in_trace(&trace, p, root), 1);
        assert_eq!(count_in_trace(&trace, p, a), 1);
    }
    // nothing depends on anything: the next cycle has no work
    let (_, trace2) = dom.update_state();
    assert!(trace2.is_empty());
}

#[test]
fn directional_ordering_parent_first() {
    let passes = vec![pass(7, &["x"], &[7], &[], &[], PassDirection::ParentToChild)];
    let mut dom = RealDom::new(passes).ok().unwrap();
    let root = dom.root_id();
    let a = dom.create_node(element("a"));
    let b = dom.create_node(element("b"));
    dom.add_child(root, a);
    dom.add_child(a, b);
    let (_, trace) = dom.update_state();
    let pos_root = trace.iter().position(|e| *e == (0, root)).unwrap();
    let pos_a = trace.iter().position(|e| *e == (0, a)).unwrap();
    let pos_b = trace.iter().position(|e| *e == (0, b)).unwrap();
    assert!(pos_root < pos_a);
    assert!(pos_a < pos_b);
}

#[test]
fn child_to_parent_runs_leaves_first() {
    let passes = vec![pass(9, &["x"], &[], &[9], &[], PassDirection::ChildToParent)];
    let mut dom = RealDom::new(passes).ok().unwrap();
    let root = dom.root_id();
    let a = dom.create_node(element("a"));
    dom.add_child(root, a);
    let (_, trace) = dom.update_state();
    let pos_root = trace.iter().position(|e| *e == (0, root)).unwrap();
    let pos_a = trace.iter().position(|e| *e == (0, a)).unwrap();
    assert!(pos_a < pos_root);
}

#[test]
fn mask_overlap_dirties_exactly_matching_passes() {
    let passes = vec![
        pass(1, &["color"], &[], &[], &[], PassDirection::AnyOrder),
        pass(2, &["width"], &[], &[], &[], PassDirection::AnyOrder),
    ];
    let mut dom = RealDom::new(passes).ok().unwrap();
    let root = dom.root_id();
    let a = dom.create_node(element("a"));
    dom.add_child(root, a);
    let _ = dom.update_state();
    assert!(dom.dirty_passes(a).is_empty());
    let old = dom.set_attribute(a, "color".to_string(), AttributeValue::Text("red".to_string()));
    assert!(old.is_none());
    // exactly the color pass is dirty, and only on the touched node
    assert_eq!(dom.dirty_passes(a), vec![0]);
    assert!(dom.dirty_passes(root).is_empty());
    let old2 = dom.set_attribute(a, "color".to_string(), AttributeValue::Text("blue".to_string()));
    assert_eq!(old2, Some(AttributeValue::Text("red".to_string())));
}

#[test]
fn cascading_invalidation_lands_in_the_next_cycle() {
    // pass 1 reads "color"; pass 2 depends on its parent's pass-1 state
    let passes = vec![
        pass(1, &["color"], &[], &[], &[], PassDirection::AnyOrder),
        pass(2, &[], &[1], &[], &[], PassDirection::AnyOrder),
    ];
    let mut dom = RealDom::new(passes).ok().unwrap();
    let root = dom.root_id();
    let n = dom.create_node(element("n"));
    let child = dom.create_node(element("child"));
    dom.add_child(root, n);
    dom.add_child(n, child);
    // settle: first computations publish changes that cascade once
    loop {
        let (_, tr) = dom.update_state();
        if tr.is_empty() {
            break;
        }
    }
    assert!(dom.dirty_passes(child).is_empty());
    // a raw mutation that changes pass 1's value on `n`
    dom.set_attribute(n, "color".to_string(), AttributeValue::Bool(true));
    let (_, trace1) = dom.update_state();
    // cycle one recomputes pass 1 on `n` and nothing on the child
    assert_eq!(count_in_trace(&trace1, 0, n), 1);
    assert_eq!(count_in_trace(&trace1, 1, child), 0);
    // the dependant pass is now due on the child, for the next cycle
    assert_eq!(dom.dirty_passes(child), vec![1]);
    let (_, trace2) = dom.update_state();
    assert_eq!(count_in_trace(&trace2, 1, child), 1);
}

#[test]
fn removal_purges_listeners_recursively() {
    let mut dom = RealDom::new(vec![]).ok().unwrap();
    let root = dom.root_id();
    let n = dom.create_node(element("n"));
    let sub = dom.create_node(element("sub"));
    dom.add_child(root, n);
    dom.add_child(n, sub);
    dom.add_event_listener(n, "click".to_string());
    dom.add_event_listener(sub, "click".to_string());
    let click = "click".to_string();
    assert!(dom.is_node_listening(n, &click));
    assert!(dom.is_node_listening(sub, &click));
    assert_eq!(dom.get_listeners(&click), vec![n, sub]);
    dom.remove(n);
    assert!(!dom.contains(n));
    assert!(!dom.contains(sub));
    assert!(!dom.is_node_listening(n, &click));
    assert!(!dom.is_node_listening(sub, &click));
    assert!(dom.get_listeners(&click).is_empty());
}

#[test]
fn removing_a_listener_leaves_the_others() {
    let mut dom = RealDom::new(vec![]).ok().unwrap();
    let root = dom.root_id();
    let n = dom.create_node(element("n"));
    dom.add_child(root, n);
    dom.add_event_listener(n, "click".to_string());
    dom.add_event_listener(n, "hover".to_string());
    let click = "click".to_string();
    let hover = "hover".to_string();
    dom.remove_event_listener(n, &click);
    assert!(!dom.is_node_listening(n, &click));
    assert!(dom.is_node_listening(n, &hover));
    // unregistering an event that nobody registered is a quiet no-op
    let unseen = "nothing".to_string();
    dom.remove_event_listener(n, &unseen);
}

#[test]
fn deep_clone_copies_payloads_and_structure() {
    let passes = vec![pass(1, &["color"], &[], &[], &[], PassDirection::AnyOrder)];
    let mut dom = RealDom::new(passes).ok().unwrap();
    let root = dom.root_id();
    let n = dom.create_node(element("box"));
    let c1 = dom.create_node(NodeType::Text("one".to_string()));
    let c2 = dom.create_node(element("inner"));
    let g = dom.create_node(NodeType::Text("deep".to_string()));
    dom.add_child(root, n);
    dom.add_child(n, c1);
    dom.add_child(n, c2);
    dom.add_child(c2, g);
    dom.set_attribute(n, "color".to_string(), AttributeValue::Int(3));
    let _ = dom.update_state();
    let copy = dom.deep_clone_node(n);
    // fresh identifiers, same shape, same payloads, in the same order
    assert!(copy != n && copy != c1 && copy != c2);
    assert_eq!(dom.parent_id(copy), None);
    let kids = dom.child_ids(copy);
    assert_eq!(kids.len(), 2);
    assert!(kids[0] != c1 && kids[1] != c2);
    match dom.node_type(copy).unwrap() {
        NodeType::Element(e) => {
            assert_eq!(e.tag, "box");
            assert_eq!(e.attributes.len(), 1);
            assert_eq!(e.attributes[0].0, "color");
        },
        _ => panic!("the copy must be an element"),
    }
    match dom.node_type(kids[0]).unwrap() {
        NodeType::Text(t) => assert_eq!(t, "one"),
        _ => panic!("the first copied child must be text"),
    }
    match dom.node_type(kids[1]).unwrap() {
        NodeType::Element(e) => assert_eq!(e.tag, "inner"),
        _ => panic!("the second copied child must be an element"),
    }
    // the copy reaches every level: the grandchild is copied in place
    let grandkids = dom.child_ids(kids[1]);
    assert_eq!(grandkids.len(), 1);
    assert!(grandkids[0] != g);
    match dom.node_type(grandkids[0]).unwrap() {
        NodeType::Text(t) => assert_eq!(t, "deep"),
        _ => panic!("the copied grandchild must be text"),
    }
    assert_eq!(dom.height(kids[1]), Some(1));
    assert_eq!(dom.height(grandkids[0]), Some(2));
    // the copy and its subtree are fully dirty; the source is untouched
    assert_eq!(dom.dirty_passes(copy), vec![0]);
    assert_eq!(dom.dirty_passes(kids[0]), vec![0]);
    assert_eq!(dom.dirty_passes(grandkids[0]), vec![0]);
    assert!(dom.dirty_passes(n).is_empty());
    assert_eq!(dom.child_ids(n), vec![c1, c2]);
}

#[test]
fn end_to_end_width_change_reaches_only_the_layout_pass() {
    let passes = vec![
        pass(10, &["width", "height"], &[10], &[], &[], PassDirection::ParentToChild),
        pass(20, &["color"], &[], &[], &[], PassDirection::AnyOrder),
    ];
    let mut dom = RealDom::new(passes).ok().unwrap();
    let root = dom.root_id();
    let child = dom.create_node(element("rect"));
    dom.add_child(root, child);
    // settle the initial computation, in which everything is dirty
    let (changed, trace) = dom.update_state();
    assert!(changed.iter().any(|(id, _)| *id == child));
    assert_eq!(count_in_trace(&trace, 0, child), 1);
    assert_eq!(count_in_trace(&trace, 1, child), 1);
    // a width mutation must reach the layout-like pass and no other
    dom.set_attribute(child, "width".to_string(), AttributeValue::Text("10".to_string()));
    assert_eq!(dom.dirty_passes(child), vec![0]);
    let (changed2, trace2) = dom.update_state();
    assert_eq!(count_in_trace(&trace2, 0, child), 1);
    assert_eq!(count_in_trace(&trace2, 1, child), 0);
    assert!(changed2.iter().any(|(id, _)| *id == child));
    assert_eq!(
        dom.get_attribute(child, &"width".to_string()),
        Some(&AttributeValue::Text("10".to_string()))
    );
}

#[test]
fn construction_rejects_duplicate_identifiers() {
    let passes = vec![
        pass(5, &[], &[], &[], &[], PassDirection::AnyOrder),
        pass(5, &[], &[], &[], &[], PassDirection::AnyOrder),
    ];
    match RealDom::new(passes) {
        Err(BuildError::DuplicatePassId(x)) => assert_eq!(x, 5),
        _ => panic!("two passes with one identifier must be refused"),
    }
}

#[test]
fn construction_rejects_unknown_dependencies() {
    let passes = vec![pass(1, &[], &[99], &[], &[], PassDirection::AnyOrder)];
    match RealDom::new(passes) {
        Err(BuildError::UnknownDependency(x)) => assert_eq!(x, 99),
        _ => panic!("a dependency on an unknown identifier must be refused"),
    }
}

#[test]
fn construction_rejects_cyclic_dependencies() {
    let passes = vec![
        pass(1, &[], &[2], &[], &[], PassDirection::AnyOrder),
        pass(2, &[], &[], &[], &[1], PassDirection::AnyOrder),
    ];
    match RealDom::new(passes) {
        Err(BuildError::DependencyCycle(stuck)) => assert_eq!(stuck.len(), 2),
        _ => panic!("cyclic dependencies must be refused"),
    }
}

#[test]
fn schedule_respects_declared_dependencies() {
    // pass 2 reads pass 1 on the same node: it must run after pass 1
    let passes = vec![
        pass(2, &[], &[], &[], &[1], PassDirection::AnyOrder),
        pass(1, &["color"], &[], &[], &[], PassDirection::AnyOrder),
    ];
    let mut dom = RealDom::new(passes).ok().unwrap();
    let root = dom.root_id();
    let (_, trace) = dom.update_state();
    let pos_dependant = trace.iter().position(|e| *e == (0, root)).unwrap();
    let pos_source = trace.iter().position(|e| *e == (1, root)).unwrap();
    assert!(pos_source < pos_dependant);
}

#[test]
fn attributes_text_and_type_round_trip() {
    let mut dom = RealDom::new(vec![]).ok().unwrap();
    let root = dom.root_id();
    let e = dom.create_node(element("p"));
    let t = dom.create_node(NodeType::Text("hi".to_string()));
    dom.add_child(root, e);
    dom.add_child(e, t);
    let name = "width".to_string();
    assert!(dom.get_attribute(e, &name).is_none());
    dom.set_attribute(e, name.clone(), AttributeValue::Int(10));
    assert_eq!(dom.get_attribute(e, &name), Some(&AttributeValue::Int(10)));
    let removed = dom.remove_attribute(e, &name);
    assert_eq!(removed, Some(AttributeValue::Int(10)));
    assert!(dom.get_attribute(e, &name).is_none());
    assert_eq!(dom.text(t).map(|s| s.as_str()), Some("hi"));
    dom.set_text(t, "bye".to_string());
    assert_eq!(dom.text(t).map(|s| s.as_str()), Some("bye"));
    dom.set_type(t, NodeType::Placeholder);
    assert!(dom.text(t).is_none());
    // a full-payload replacement dirties like a created node: full mask
    assert!(matches!(dom.node_type(t), Some(NodeType::Placeholder)));
}

#[test]
fn insert_before_and_after_keep_sibling_order() {
    let mut dom = RealDom::new(vec![]).ok().unwrap();
    let root = dom.root_id();
    let a = dom.create_node(element("a"));
    let b = dom.create_node(element("b"));
    let c = dom.create_node(element("c"));
    dom.add_child(root, a);
    dom.insert_before(a, b);
    assert_eq!(dom.child_ids(root), vec![b, a]);
    dom.insert_after(b, c);
    assert_eq!(dom.child_ids(root), vec![b, c, a]);
    // moving an attached node keeps it unique among the children
    dom.insert_before(b, c);
    assert_eq!(dom.child_ids(root), vec![c, b, a]);
}

#[test]
fn traversal_visits_parents_before_children() {
    let mut dom = RealDom::new(vec![]).ok().unwrap();
    let root = dom.root_id();
    let a = dom.create_node(element("a"));
    let b = dom.create_node(element("b"));
    let c = dom.create_node(element("c"));
    dom.add_child(root, a);
    dom.add_child(a, b);
    dom.add_child(root, c);
    let order = dom.traverse_depth_first();
    assert_eq!(order[0], root);
    let pa = order.iter().position(|x| *x == a).unwrap();
    let pb = order.iter().position(|x| *x == b).unwrap();
    assert!(pa < pb);
    assert_eq!(order.len(), 4);
    // a detached node is not reachable from the root
    let lone = dom.create_node(element("lone"));
    let order2 = dom.traverse_depth_first();
    assert!(!order2.contains(&lone));
}

#[test]
fn traversal_skips_below_opaque_nodes() {
    let mut dom = RealDom::new(vec![]).ok().unwrap();
    let root = dom.root_id();
    let a = dom.create_node(element("a"));
    let b = dom.create_node(element("b"));
    let c = dom.create_node(element("c"));
    dom.add_child(root, a);
    dom.add_child(a, b);
    dom.add_child(root, c);
    let order = dom.traverse_depth_first_advanced(&vec![a]);
    assert!(order.contains(&a));
    assert!(!order.contains(&b));
    assert!(order.contains(&c));
    assert_eq!(order[0], root);
}

#[test]
fn removed_nodes_still_report_their_masks() {
    let passes = vec![pass(1, &["color"], &[], &[], &[], PassDirection::AnyOrder)];
    let mut dom = RealDom::new(passes).ok().unwrap();
    let root = dom.root_id();
    let n = dom.create_node(element("n"));
    dom.add_child(root, n);
    let _ = dom.update_state();
    // dirty the node, then remove it before the cycle runs
    dom.set_attribute(n, "color".to_string(), AttributeValue::Bool(true));
    dom.remove(n);
    assert!(!dom.contains(n));
    let (changed, trace) = dom.update_state();
    // the removed node's accumulated mask is still returned ...
    let entry = changed.iter().find(|(id, _)| *id == n);
    assert!(entry.is_some());
    let mask = &entry.unwrap().1;
    assert!(mask.overlaps(&NodeMask::for_attributes(vec!["color".to_string()])));
    // ... but no work runs on it, and the staging is consumed
    assert_eq!(count_in_trace(&trace, 0, n), 0);
    let (changed2, _) = dom.update_state();
    assert!(!changed2.iter().any(|(id, _)| *id == n));
}

#[test]
fn derived_state_slots_are_per_pass() {
    let passes = vec![pass(1, &["x"], &[], &[], &[], PassDirection::AnyOrder)];
    let mut dom = RealDom::new(passes).ok().unwrap();
    let root = dom.root_id();
    assert_eq!(dom.pass_count(), 1);
    assert_eq!(dom.pass_id_at(0), Some(1));
    assert_eq!(dom.get_state(root, 0), None);
    let _ = dom.update_state();
    assert!(dom.get_state(root, 0).is_some());
    dom.insert(root, 0, 42);
    assert_eq!(dom.get_state(root, 0), Some(42));
    assert_eq!(dom.dirty_passes(root), vec![0]);
}
