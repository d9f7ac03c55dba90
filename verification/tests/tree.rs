//! Tests of the completion tree: evaluation, pruning, the upward climb,
//! and the failure flag.

use dircp::dir_tree::{DirNode, DirTree, SharedNodeRef};

fn path(parts: &[&str]) -> Vec<String> {
    parts.iter().map(|p| p.to_string()).collect()
}

/// Attach a fresh node under `parent` and hand back its slot handle.
fn attach_child(tree: &mut DirTree, parent: SharedNodeRef, name: &str) -> SharedNodeRef {
    let mut node = DirNode::new(path(&[name]));
    node.set_parent(parent);
    let child = SharedNodeRef::new(tree, node);
    tree.attach(parent, child);
    child
}

#[test]
fn leaf_is_copied_after_one_evaluation() {
    let mut tree = DirTree::new();
    let root = SharedNodeRef::new(&mut tree, DirNode::new(Vec::new()));
    assert!(!tree.nodes[root.inner()].is_copied());
    DirNode::set_copied(&mut tree, root);
    assert!(tree.nodes[root.inner()].is_copied());
}

#[test]
fn evaluate_is_idempotent_on_complete_node() {
    let mut tree = DirTree::new();
    let root = SharedNodeRef::new(&mut tree, DirNode::new(Vec::new()));
    DirNode::set_copied(&mut tree, root);
    assert!(tree.nodes[root.inner()].is_copied());
    let children_before = tree.nodes[root.inner()].sub_nodes.len();
    DirNode::set_copied(&mut tree, root);
    DirNode::set_copied(&mut tree, root);
    assert!(tree.nodes[root.inner()].is_copied());
    assert_eq!(tree.nodes[root.inner()].sub_nodes.len(), children_before);
}

#[test]
fn no_premature_completion_with_pending_child() {
    let mut tree = DirTree::new();
    let root = SharedNodeRef::new(&mut tree, DirNode::new(Vec::new()));
    let child = attach_child(&mut tree, root, "sub");
    DirNode::set_copied(&mut tree, root);
    assert!(!tree.nodes[root.inner()].is_copied());
    assert_eq!(tree.nodes[root.inner()].sub_nodes.len(), 1);
    assert_eq!(tree.nodes[root.inner()].sub_nodes[0], child);
}

#[test]
fn completed_children_are_pruned() {
    let mut tree = DirTree::new();
    let root = SharedNodeRef::new(&mut tree, DirNode::new(Vec::new()));
    let a = attach_child(&mut tree, root, "a");
    let b = attach_child(&mut tree, root, "b");
    DirNode::set_copied(&mut tree, a);
    DirNode::set_copied(&mut tree, root);
    // `a` is done and pruned; `b` keeps the root incomplete
    assert!(!tree.nodes[root.inner()].is_copied());
    assert_eq!(tree.nodes[root.inner()].sub_nodes.len(), 1);
    assert_eq!(tree.nodes[root.inner()].sub_nodes[0], b);
}

#[test]
fn climb_marks_whole_chain() {
    let mut tree = DirTree::new();
    let root = SharedNodeRef::new(&mut tree, DirNode::new(Vec::new()));
    let a = attach_child(&mut tree, root, "a");
    let b = attach_child(&mut tree, a, "b");
    DirNode::set_copied(&mut tree, b);
    DirNode::try_lookup_continuously(&mut tree, b);
    assert!(tree.nodes[b.inner()].is_copied());
    assert!(tree.nodes[a.inner()].is_copied());
    assert!(tree.nodes[root.inner()].is_copied());
}

#[test]
fn climb_stops_at_incomplete_ancestor() {
    let mut tree = DirTree::new();
    let root = SharedNodeRef::new(&mut tree, DirNode::new(Vec::new()));
    let a = attach_child(&mut tree, root, "a");
    let _a2 = attach_child(&mut tree, root, "a2");
    let b = attach_child(&mut tree, a, "b");
    DirNode::set_copied(&mut tree, b);
    DirNode::try_lookup_continuously(&mut tree, b);
    assert!(tree.nodes[a.inner()].is_copied());
    // a2 is still pending, so the root must not be complete
    assert!(!tree.nodes[root.inner()].is_copied());
}

#[test]
fn two_level_fan_out_completes_root() {
    // mirrors a wide tree: five children, one of which has five children
    let mut tree = DirTree::new();
    let root = SharedNodeRef::new(&mut tree, DirNode::new(Vec::new()));
    let mut tops = Vec::new();
    for i in 0..5 {
        tops.push(attach_child(&mut tree, root, &format!("A{}", i + 1)));
    }
    let hub = tops[2];
    let mut subs = Vec::new();
    for i in 0..5 {
        subs.push(attach_child(&mut tree, hub, &format!("B{}", i + 1)));
    }
    for &s in &subs {
        DirNode::set_copied(&mut tree, s);
        DirNode::try_lookup_continuously(&mut tree, s);
    }
    assert!(!tree.nodes[root.inner()].is_copied());
    for &t in &tops {
        DirNode::set_copied(&mut tree, t);
        DirNode::try_lookup_continuously(&mut tree, t);
    }
    assert!(tree.nodes[root.inner()].is_copied());
}

#[test]
fn failed_node_never_completes() {
    let mut tree = DirTree::new();
    let root = SharedNodeRef::new(&mut tree, DirNode::new(Vec::new()));
    let a = attach_child(&mut tree, root, "a");
    DirNode::set_failed(&mut tree, a);
    DirNode::set_copied(&mut tree, a);
    DirNode::try_lookup_continuously(&mut tree, a);
    assert!(!tree.nodes[a.inner()].is_copied());
    assert!(!tree.nodes[root.inner()].is_copied());
}

#[test]
fn interleaved_completions_are_never_premature() {
    // complete three children in every order, re-evaluating the root in
    // between: the root must report complete only once all three are done
    let orders: [[usize; 3]; 6] =
        [[0, 1, 2], [0, 2, 1], [1, 0, 2], [1, 2, 0], [2, 0, 1], [2, 1, 0]];
    for order in orders {
        let mut tree = DirTree::new();
        let root = SharedNodeRef::new(&mut tree, DirNode::new(Vec::new()));
        let kids = [
            attach_child(&mut tree, root, "k0"),
            attach_child(&mut tree, root, "k1"),
            attach_child(&mut tree, root, "k2"),
        ];
        for (done, &pick) in order.iter().enumerate() {
            assert!(!tree.nodes[root.inner()].is_copied());
            DirNode::set_copied(&mut tree, kids[pick]);
            DirNode::try_lookup_continuously(&mut tree, kids[pick]);
            let all_done = done == 2;
            assert_eq!(tree.nodes[root.inner()].is_copied(), all_done);
        }
    }
}

#[test]
fn wf_checker_tells_good_trees_from_bad() {
    let mut tree = DirTree::new();
    let root = SharedNodeRef::new(&mut tree, DirNode::new(Vec::new()));
    let a = attach_child(&mut tree, root, "a");
    let _b = attach_child(&mut tree, a, "b");
    assert!(tree.is_wf());

    // a node naming a later slot as its parent is rejected
    let mut broken = DirNode::new(path(&["loose"]));
    broken.set_parent(SharedNodeRef { id: 7 });
    let bad = DirTree { nodes: vec![broken] };
    assert!(!bad.is_wf());
}

#[test]
fn node_accessors_report_fields() {
    let mut tree = DirTree::new();
    let root = SharedNodeRef::new(&mut tree, DirNode::new(Vec::new()));
    let a = attach_child(&mut tree, root, "a");
    assert_eq!(root.inner(), 0);
    assert_eq!(a.inner(), 1);
    assert_eq!(tree.nodes[a.inner()].parent(), Some(root));
    assert_eq!(tree.nodes[root.inner()].parent(), None);
    assert_eq!(tree.nodes[a.inner()].path(), &vec!["a".to_string()]);
}
