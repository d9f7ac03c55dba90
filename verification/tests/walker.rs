//! Tests of the per-item walker step and the small path helpers the
//! surrounding program uses.

use dircp::copy::{
    child_path, clone_bytes, clone_path, plan_item, tail_components, DirEntry, EntryKind, Message,
    WorkItem,
};
use dircp::dir_tree::{DirNode, DirTree, SharedNodeRef};

fn p(parts: &[&str]) -> Vec<String> {
    parts.iter().map(|s| s.to_string()).collect()
}

fn entry(name: &str, kind: EntryKind) -> DirEntry {
    DirEntry { name: name.to_string(), kind }
}

#[test]
fn plan_item_attaches_children_and_splits_the_listing() {
    let mut tree = DirTree::new();
    let root = SharedNodeRef::new(&mut tree, DirNode::new(Vec::new()));
    let item = WorkItem { path: p(&["top"]), node: root };
    let entries = vec![
        entry("sub1", EntryKind::Directory),
        entry("a.txt", EntryKind::FileLike),
        entry("socket", EntryKind::Other),
        entry("sub2", EntryKind::Directory),
        entry("b.txt", EntryKind::FileLike),
    ];
    let plan = plan_item(&mut tree, &item, &entries);

    // two subdirectories, already attached to the tree, in listing order
    assert_eq!(plan.sub_dirs.len(), 2);
    assert_eq!(plan.sub_dirs[0].path, p(&["top", "sub1"]));
    assert_eq!(plan.sub_dirs[1].path, p(&["top", "sub2"]));
    assert_eq!(tree.nodes.len(), 3);
    assert_eq!(tree.nodes[root.inner()].sub_nodes.len(), 2);
    let c1 = plan.sub_dirs[0].node;
    let c2 = plan.sub_dirs[1].node;
    assert_eq!(tree.nodes[root.inner()].sub_nodes, vec![c1, c2]);
    assert_eq!(tree.nodes[c1.inner()].parent(), Some(root));
    assert_eq!(tree.nodes[c2.inner()].parent(), Some(root));
    assert!(!tree.nodes[c1.inner()].is_copied());

    // the two files, under their full relative paths; the socket is skipped
    assert_eq!(plan.files, vec![p(&["top", "a.txt"]), p(&["top", "b.txt"])]);

    // attach-before-schedule: the items the caller would submit already
    // have their nodes in the tree
    for w in &plan.sub_dirs {
        assert!(w.node.inner() < tree.nodes.len());
    }
    let _msg = Message::NewTask(WorkItem { path: plan.sub_dirs[0].path.clone(), node: c1 });
    let _stop = Message::Terminate;
}

#[test]
fn path_helpers_copy_exactly() {
    let base = p(&["a", "b"]);
    let copy = clone_path(&base);
    assert_eq!(copy, base);
    let child = child_path(&base, &"c".to_string());
    assert_eq!(child, p(&["a", "b", "c"]));
    let bytes = clone_bytes(&vec![1u8, 2, 3]);
    assert_eq!(bytes, vec![1u8, 2, 3]);
}

#[test]
fn tail_components_takes_the_missing_suffix() {
    let full = p(&["home", "user", "dest", "deep", "deeper"]);
    assert_eq!(tail_components(&full, 2), p(&["deep", "deeper"]));
    assert_eq!(tail_components(&full, 0), Vec::<String>::new());
    assert_eq!(tail_components(&full, 5), full);
}
