//! Tests of the two walk engines against in-memory source trees: the
//! depth-first single-worker walk and the queue-driven walk with the
//! completion tree.

use dircp::copy::{run_queued, run_recursive, Action, CopyBuilder};
use dircp::dir_tree::DirNode;
use dircp::fs_model::{FsData, FsDir, FsEntry, FsFile};

fn file(name: &str, content: &str) -> FsEntry {
    FsEntry {
        name: name.to_string(),
        data: FsData::File(FsFile { content: content.as_bytes().to_vec(), readable: true }),
    }
}

fn unreadable_file(name: &str) -> FsEntry {
    FsEntry {
        name: name.to_string(),
        data: FsData::File(FsFile { content: Vec::new(), readable: false }),
    }
}

fn dir(name: &str, entries: Vec<FsEntry>) -> FsEntry {
    FsEntry { name: name.to_string(), data: FsData::Dir(FsDir { entries }) }
}

fn p(parts: &[&str]) -> Vec<String> {
    parts.iter().map(|s| s.to_string()).collect()
}

#[test]
fn recursive_walk_emits_depth_first_actions() {
    // A/{x.txt, B/{y.txt}} with x.txt = "hello", y.txt = "world"
    let src = FsDir { entries: vec![file("x.txt", "hello"), dir("B", vec![file("y.txt", "world")])] };
    let mut out: Vec<Action> = Vec::new();
    let r = run_recursive(&src, &Vec::new(), &mut out);
    assert!(r.is_ok());
    assert_eq!(
        out,
        vec![
            Action::CopyFile(p(&["x.txt"]), b"hello".to_vec()),
            Action::CreateDir(p(&["B"])),
            Action::CopyFile(p(&["B", "y.txt"]), b"world".to_vec()),
        ]
    );
}

#[test]
fn queued_walk_copies_everything_and_completes_root() {
    let src = FsDir { entries: vec![file("x.txt", "hello"), dir("B", vec![file("y.txt", "world")])] };
    let mut r = run_queued(&src);
    assert!(r.errors.is_empty());
    let mut acts = r.actions.clone();
    acts.sort();
    let mut expected = vec![
        Action::CopyFile(p(&["x.txt"]), b"hello".to_vec()),
        Action::CreateDir(p(&["B"])),
        Action::CopyFile(p(&["B", "y.txt"]), b"world".to_vec()),
    ];
    expected.sort();
    assert_eq!(acts, expected);
    // polling the root reports complete, and stays complete
    assert!(r.tree.nodes[r.root.inner()].is_copied());
    DirNode::set_copied(&mut r.tree, r.root);
    assert!(r.tree.nodes[r.root.inner()].is_copied());
}

#[test]
fn both_engines_produce_the_same_destination() {
    let src = FsDir {
        entries: vec![
            dir("d1", vec![file("f1", "one"), dir("d2", vec![file("f2", "two"), file("f3", "three")])]),
            file("top", "zero"),
            dir("d3", Vec::new()),
        ],
    };
    let mut rec_out: Vec<Action> = Vec::new();
    assert!(run_recursive(&src, &Vec::new(), &mut rec_out).is_ok());
    let queued = run_queued(&src);
    assert!(queued.errors.is_empty());
    let mut a = rec_out;
    let mut b = queued.actions;
    a.sort();
    b.sort();
    assert_eq!(a, b);
    assert!(queued.tree.nodes[queued.root.inner()].is_copied());
}

#[test]
fn empty_source_completes_immediately() {
    let src = FsDir { entries: Vec::new() };
    let r = run_queued(&src);
    assert!(r.errors.is_empty());
    assert!(r.actions.is_empty());
    assert_eq!(r.tree.nodes.len(), 1);
    assert!(r.tree.nodes[r.root.inner()].is_copied());
}

#[test]
fn unreadable_file_surfaces_error_and_stalls_root() {
    let src = FsDir {
        entries: vec![file("ok.txt", "fine"), dir("B", vec![unreadable_file("secret")])],
    };
    // the queue-driven run reports the error and never completes the root
    let r = run_queued(&src);
    assert_eq!(r.errors.len(), 1);
    assert_eq!(r.errors[0].path, p(&["B", "secret"]));
    assert!(!r.tree.nodes[r.root.inner()].is_copied());
    // the single-threaded run aborts with the same path
    let mut out: Vec<Action> = Vec::new();
    let e = run_recursive(&src, &Vec::new(), &mut out).unwrap_err();
    assert_eq!(e.path, p(&["B", "secret"]));
}

#[test]
fn builder_collects_the_four_knobs() {
    let b = CopyBuilder::new()
        .set_from("src_dir")
        .set_to("dst_dir")
        .set_verbose(true)
        .set_threads_number(8);
    assert!(b.multi_threads);
    assert_eq!(b.threads_number, 8);
    assert!(b.verbose);
    assert_eq!(b.from.as_deref(), Some("src_dir"));
    assert_eq!(b.to.as_deref(), Some("dst_dir"));
    let single = CopyBuilder::new();
    assert!(!single.multi_threads);
    assert_eq!(single.threads_number, 0);
}
