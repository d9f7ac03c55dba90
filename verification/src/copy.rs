//! Configuration of a copy operation and the verified walk engines.
//!
//! A copy run is described by the sequence of actions it must perform:
//! `CreateDir` for every directory of the source tree and `CopyFile`
//! for every file, each under its path relative to the two roots.
//! `dir_actions` is the specification of that sequence; the depth-first
//! engine (`run_recursive`) produces it exactly, and the queue-driven
//! engine (`run_queued`) produces the same actions up to order while
//! driving the completion tree.

use crate::dir_tree::{
    child_of, eager, eager_except, kids_all_copied, kids_point_to_children, lemma_all_copied,
    lemma_climb_restores, lemma_copied_descends, lemma_eval_node_frame, lemma_eval_node_inv,
    lemma_prune_membership, node_wf, pend_fresh, rooted, tree_inv, tree_wf,
    uncopied_children_listed, valid_idx, DirNode, DirTree, NodeV, SharedNodeRef,
};
use crate::fs_model::{
    dir_at, dir_has_unreadable, dir_size, entries_have_unreadable, entries_size, entry_has_unreadable,
    entry_named, entry_size, file_at, lemma_add_contains, FsData, FsDir, FsEntry, FsFile,
};
use vstd::multiset::Multiset;
use vstd::prelude::*;
use vstd::seq_lib::lemma_multiset_commutative;

verus! {

/// Builder collecting the four knobs of a copy run: source, destination,
/// worker count and verbosity. `multi_threads` is switched on as soon as
/// a worker count is chosen.
#[derive(Clone)]
pub struct CopyBuilder {
    pub verbose: bool,
    pub multi_threads: bool,
    pub threads_number: usize,
    pub from: Option<String>,
    pub to: Option<String>,
}

impl CopyBuilder {
    /// Fresh builder: single-threaded, quiet, no paths chosen yet.
    pub fn new() -> (r: CopyBuilder)
        ensures
            !r.verbose,
            !r.multi_threads,
            r.threads_number == 0,
            r.from is None,
            r.to is None,
    {
        CopyBuilder {
            verbose: false,
            multi_threads: false,
            threads_number: 0,
            from: None,
            to: None,
        }
    }

    /// Choosing a worker count also selects multi-threaded mode.
    pub fn set_threads_number(self, num: usize) -> (r: Self)
        ensures
            r.threads_number == num,
            r.multi_threads,
            r.verbose == self.verbose,
            r.from == self.from,
            r.to == self.to,
    {
        let mut s = self;
        s.threads_number = num;
        s.multi_threads = true;
        s
    }

    pub fn set_verbose(self, verbose: bool) -> (r: Self)
        ensures
            r.verbose == verbose,
            r.multi_threads == self.multi_threads,
            r.threads_number == self.threads_number,
            r.from == self.from,
            r.to == self.to,
    {
        let mut s = self;
        s.verbose = verbose;
        s
    }

    pub fn set_from(self, from: &str) -> (r: Self)
        ensures
            r.from matches Some(f) && f@ == from@,
            r.verbose == self.verbose,
            r.multi_threads == self.multi_threads,
            r.threads_number == self.threads_number,
            r.to == self.to,
    {
        let mut s = self;
        s.from = Some(from.to_owned());
        s
    }

    pub fn set_to(self, to: &str) -> (r: Self)
        ensures
            r.to matches Some(t) && t@ == to@,
            r.verbose == self.verbose,
            r.multi_threads == self.multi_threads,
            r.threads_number == self.threads_number,
            r.from == self.from,
    {
        let mut s = self;
        s.to = Some(to.to_owned());
        s
    }
}

/// One unit of deferred work: copy the contents of the source directory
/// at `path` (components relative to the source root) and report into
/// the completion-tree node `node`.
pub struct WorkItem {
    pub path: Vec<String>,
    pub node: SharedNodeRef,
}

/// What the scheduler's queue carries: either a work item or the order
/// to shut a worker down.
pub enum Message {
    NewTask(WorkItem),
    Terminate,
}

/// How the walker classifies one directory entry: a real directory (not
/// a symbolic link) is walked, a file or symbolic link is copied by
/// content, anything else is skipped.
#[derive(Clone, Copy, PartialEq, Eq, Structural, Debug)]
pub enum EntryKind {
    Directory,
    FileLike,
    Other,
}

/// One row of a directory listing, as handed to the walker.
pub struct DirEntry {
    pub name: String,
    pub kind: EntryKind,
}

/// What processing one work item demands from the surrounding program:
/// the work items for the subdirectories found (their nodes are already
/// attached to the completion tree), and the relative paths of the files
/// to copy.
pub struct ItemPlan {
    pub sub_dirs: Vec<WorkItem>,
    pub files: Vec<Vec<String>>,
}

/// Names of the directory entries of a listing, in listing order.
pub open spec fn dir_names(s: Seq<DirEntry>) -> Seq<Seq<char>>
    decreases s.len(),
{
    if s.len() == 0 {
        Seq::empty()
    } else {
        let rest = dir_names(s.drop_last());
        if s.last().kind is Directory {
            rest.push(s.last().name@)
        } else {
            rest
        }
    }
}

/// Names of the file-like entries of a listing, in listing order.
pub open spec fn file_names(s: Seq<DirEntry>) -> Seq<Seq<char>>
    decreases s.len(),
{
    if s.len() == 0 {
        Seq::empty()
    } else {
        let rest = file_names(s.drop_last());
        if s.last().kind is FileLike {
            rest.push(s.last().name@)
        } else {
            rest
        }
    }
}

pub proof fn lemma_dir_names_push(s: Seq<DirEntry>, e: DirEntry)
    ensures
        dir_names(s.push(e)) == if e.kind is Directory {
            dir_names(s).push(e.name@)
        } else {
            dir_names(s)
        },
{
    assert(s.push(e).drop_last() =~= s);
    assert(s.push(e).last() == e);
}

pub proof fn lemma_file_names_push(s: Seq<DirEntry>, e: DirEntry)
    ensures
        file_names(s.push(e)) == if e.kind is FileLike {
            file_names(s).push(e.name@)
        } else {
            file_names(s)
        },
{
    assert(s.push(e).drop_last() =~= s);
    assert(s.push(e).last() == e);
}

/// Element-wise copy of a path, so the copy provably carries the same
/// components.
pub fn clone_path(p: &Vec<String>) -> (r: Vec<String>)
    ensures
        r@ == p@,
        r.deep_view() == p.deep_view(),
{
    let mut r: Vec<String> = Vec::new();
    let mut i: usize = 0;
    while i < p.len()
        invariant
            i <= p.len(),
            r@ == p@.take(i as int),
        decreases p.len() - i,
    {
        r.push(p[i].clone());
        proof {
            assert(r@ =~= p@.take(i as int + 1));
        }
        i = i + 1;
    }
    proof {
        assert(p@.take(p@.len() as int) =~= p@);
        assert(r.deep_view() =~= p.deep_view());
    }
    r
}

/// Element-wise copy of a byte vector.
pub fn clone_bytes(b: &Vec<u8>) -> (r: Vec<u8>)
    ensures
        r@ == b@,
{
    let mut r: Vec<u8> = Vec::new();
    let mut i: usize = 0;
    while i < b.len()
        invariant
            i <= b.len(),
            r@ == b@.take(i as int),
        decreases b.len() - i,
    {
        r.push(b[i]);
        proof {
            assert(r@ =~= b@.take(i as int + 1));
        }
        i = i + 1;
    }
    proof {
        assert(b@.take(b@.len() as int) =~= b@);
    }
    r
}

/// `base` extended by one more component.
pub fn child_path(base: &Vec<String>, name: &String) -> (r: Vec<String>)
    ensures
        r.deep_view() == base.deep_view().push(name@),
{
    let mut r = clone_path(base);
    r.push(name.clone());
    proof {
        assert(r.deep_view() =~= base.deep_view().push(name@));
    }
    r
}

/// The last `count` components of a path, in order: what must be
/// created under the deepest existing ancestor when the destination
/// does not exist yet.
pub fn tail_components(path: &Vec<String>, count: usize) -> (r: Vec<String>)
    requires
        count <= path@.len(),
    ensures
        r@ == path@.subrange(path@.len() - count, path@.len() as int),
{
    let mut r: Vec<String> = Vec::new();
    let start = path.len() - count;
    let mut i: usize = start;
    while i < path.len()
        invariant
            start == path@.len() - count,
            start <= i <= path@.len(),
            r@ == path@.subrange(start as int, i as int),
        decreases path.len() - i,
    {
        r.push(path[i].clone());
        proof {
            assert(r@ =~= path@.subrange(start as int, i as int + 1));
        }
        i = i + 1;
    }
    r
}

/// Process one work item, given the listing of its source directory:
/// for every directory entry a fresh node is created, attached to the
/// item's node and wrapped into a new work item (attach-before-schedule:
/// the child is in the tree before the caller ever sees the new item);
/// file-like entries come back as paths to copy. The item's node itself
/// is not evaluated here — that happens after the files were copied.
pub fn plan_item(tree: &mut DirTree, item: &WorkItem, entries: &Vec<DirEntry>) -> (plan: ItemPlan)
    requires
        valid_idx(old(tree)@, item.node.id as int),
    ensures
        ({
            let t0 = old(tree)@;
            let n = item.node.id as int;
            let dnames = dir_names(entries@);
            let base = item.path.deep_view();
            &&& final(tree)@.len() == t0.len() + dnames.len()
            &&& (forall|j: int| 0 <= j < t0.len() && j != n ==> final(tree)@[j] == t0[j])
            &&& final(tree)@[n] == (NodeV {
                kids: t0[n].kids + Seq::new(dnames.len(), |k: int| t0.len() + k),
                ..t0[n]
            })
            &&& (forall|k: int|
                0 <= k < dnames.len() ==> final(tree)@[t0.len() + k] == (NodeV {
                    path: base.push(dnames[k]),
                    parent: Some(n),
                    copied: false,
                    failed: false,
                    kids: Seq::empty(),
                }))
            &&& plan.sub_dirs@.len() == dnames.len()
            &&& (forall|k: int|
                0 <= k < dnames.len() ==> (#[trigger] plan.sub_dirs@[k]).node.id == t0.len() + k
                    && plan.sub_dirs@[k].path.deep_view() == base.push(dnames[k]))
            &&& plan.files@.len() == file_names(entries@).len()
            &&& (forall|k: int|
                0 <= k < plan.files@.len() ==> (#[trigger] plan.files@[k]).deep_view()
                    == base.push(file_names(entries@)[k]))
        }),
{
    let ghost t0 = tree@;
    let ghost n = item.node.id as int;
    let ghost base = item.path.deep_view();
    let mut sub_dirs: Vec<WorkItem> = Vec::new();
    let mut files: Vec<Vec<String>> = Vec::new();
    let mut j: usize = 0;
    while j < entries.len()
        invariant
            valid_idx(t0, n),
            j <= entries.len(),
            base == item.path.deep_view(),
            n == item.node.id as int,
            tree@.len() == t0.len() + dir_names(entries@.take(j as int)).len(),
            forall|i: int| 0 <= i < t0.len() && i != n ==> tree@[i] == t0[i],
            tree@[n] == (NodeV {
                kids: t0[n].kids + Seq::new(
                    dir_names(entries@.take(j as int)).len(),
                    |k: int| t0.len() + k,
                ),
                ..t0[n]
            }),
            forall|k: int|
                0 <= k < dir_names(entries@.take(j as int)).len() ==> tree@[t0.len() + k]
                    == (NodeV {
                    path: base.push(dir_names(entries@.take(j as int))[k]),
                    parent: Some(n),
                    copied: false,
                    failed: false,
                    kids: Seq::empty(),
                }),
            sub_dirs@.len() == dir_names(entries@.take(j as int)).len(),
            forall|k: int|
                0 <= k < sub_dirs@.len() ==> (#[trigger] sub_dirs@[k]).node.id == t0.len() + k
                    && sub_dirs@[k].path.deep_view() == base.push(
                    dir_names(entries@.take(j as int))[k],
                ),
            files@.len() == file_names(entries@.take(j as int)).len(),
            forall|k: int|
                0 <= k < files@.len() ==> (#[trigger] files@[k]).deep_view() == base.push(
                    file_names(entries@.take(j as int))[k],
                ),
        decreases entries.len() - j,
    {
        proof {
            assert(entries@.take(j as int + 1) =~= entries@.take(j as int).push(entries@[j as int]));
            lemma_dir_names_push(entries@.take(j as int), entries@[j as int]);
            lemma_file_names_push(entries@.take(j as int), entries@[j as int]);
        }
        let kind = entries[j].kind;
        match kind {
            EntryKind::Directory => {
                let cpath = child_path(&item.path, &entries[j].name);
                let cpath2 = clone_path(&cpath);
                let mut node = DirNode::new(cpath);
                node.set_parent(item.node);
                let ghost t_pre = tree@;
                let child_ref = SharedNodeRef::new(tree, node);
                tree.attach(item.node, child_ref);
                sub_dirs.push(WorkItem { path: cpath2, node: child_ref });
                proof {
                    let dc = dir_names(entries@.take(j as int)).len();
                    assert(tree@[n].kids =~= t0[n].kids + Seq::new(
                        (dc + 1) as nat,
                        |k: int| t0.len() + k,
                    ));
                    assert(tree@[n] =~= (NodeV {
                        kids: t0[n].kids + Seq::new((dc + 1) as nat, |k: int| t0.len() + k),
                        ..t0[n]
                    }));
                }
            },
            EntryKind::FileLike => {
                let cpath = child_path(&item.path, &entries[j].name);
                files.push(cpath);
            },
            EntryKind::Other => {},
        }
        j = j + 1;
    }
    proof {
        assert(entries@.take(entries@.len() as int) =~= entries@);
    }
    ItemPlan { sub_dirs, files }
}

/// Mathematical image of one copy action: a path (components relative to
/// the two roots) plus, for a file, the bytes to write.
#[verifier::ext_equal]
pub enum ActionV {
    CreateDir { path: Seq<Seq<char>> },
    CopyFile { path: Seq<Seq<char>>, content: Seq<u8> },
}

/// One side effect the surrounding program must perform on the
/// destination: create a directory, or write a file with given bytes.
#[derive(Clone, PartialEq, Eq, PartialOrd, Ord, Debug)]
pub enum Action {
    CreateDir(Vec<String>),
    CopyFile(Vec<String>, Vec<u8>),
}

impl View for Action {
    type V = ActionV;

    open spec fn view(&self) -> ActionV {
        match self {
            Action::CreateDir(p) => ActionV::CreateDir { path: p.deep_view() },
            Action::CopyFile(p, c) => ActionV::CopyFile { path: p.deep_view(), content: c@ },
        }
    }
}

pub open spec fn action_views(s: Seq<Action>) -> Seq<ActionV> {
    s.map_values(|a: Action| a@)
}

/// The actions a copy of directory `d`, mirrored under relative path
/// `prefix`, must perform: for each entry in listing order, a directory
/// becomes a `CreateDir` followed by the actions of its own subtree, a
/// file becomes a `CopyFile` of its bytes.
pub open spec fn dir_actions(prefix: Seq<Seq<char>>, d: FsDir) -> Seq<ActionV>
    decreases d,
{
    entries_actions(prefix, d.entries@)
}

pub open spec fn entries_actions(prefix: Seq<Seq<char>>, s: Seq<FsEntry>) -> Seq<ActionV>
    decreases s,
{
    if s.len() == 0 {
        Seq::empty()
    } else {
        entry_actions(prefix, s[0]) + entries_actions(prefix, s.drop_first())
    }
}

pub open spec fn entry_actions(prefix: Seq<Seq<char>>, e: FsEntry) -> Seq<ActionV>
    decreases e,
{
    match e.data {
        FsData::Dir(sub) => seq![ActionV::CreateDir { path: prefix.push(e.name@) }]
            + dir_actions(prefix.push(e.name@), sub),
        FsData::File(f) => seq![
            ActionV::CopyFile { path: prefix.push(e.name@), content: f.content@ },
        ],
    }
}

/// The actions of a listing extended by one entry are the actions of the
/// listing followed by the actions of the new entry.
pub proof fn lemma_entries_actions_push(prefix: Seq<Seq<char>>, s: Seq<FsEntry>, e: FsEntry)
    ensures
        entries_actions(prefix, s.push(e)) == entries_actions(prefix, s) + entry_actions(
            prefix,
            e,
        ),
    decreases s.len(),
{
    if s.len() == 0 {
        assert(s.push(e).len() == 1);
        assert(s.push(e)[0] == e);
        assert(s.push(e).drop_first() =~= Seq::<FsEntry>::empty());
        assert(entries_actions(prefix, s.push(e).drop_first()) == Seq::<ActionV>::empty());
        assert(entries_actions(prefix, s) == Seq::<ActionV>::empty());
        assert(entries_actions(prefix, s.push(e)) == entry_actions(prefix, e)
            + entries_actions(prefix, s.push(e).drop_first()));
        assert(entry_actions(prefix, e) + Seq::<ActionV>::empty() =~= Seq::<ActionV>::empty()
            + entry_actions(prefix, e));
    } else {
        let a0 = entry_actions(prefix, s[0]);
        let b = entries_actions(prefix, s.drop_first());
        let ea = entry_actions(prefix, e);
        assert(s.push(e)[0] == s[0]);
        assert(s.push(e).drop_first() =~= s.drop_first().push(e));
        lemma_entries_actions_push(prefix, s.drop_first(), e);
        assert(entries_actions(prefix, s.push(e)) == a0 + (b + ea));
        assert(a0 + (b + ea) =~= (a0 + b) + ea);
    }
}

/// Whatever the actions of a named entry demand, the actions of any
/// listing holding that entry demand as well.
pub proof fn lemma_entry_actions_in_listing(
    prefix: Seq<Seq<char>>,
    s: Seq<FsEntry>,
    name: Seq<char>,
    e: FsEntry,
    x: ActionV,
)
    requires
        entry_named(s, name) == Some(e),
        entry_actions(prefix, e).contains(x),
    ensures
        entries_actions(prefix, s).contains(x),
    decreases s.len(),
{
    if s[0].name@ == name {
        lemma_add_contains(entry_actions(prefix, s[0]), entries_actions(prefix, s.drop_first()), x);
    } else {
        lemma_entry_actions_in_listing(prefix, s.drop_first(), name, e, x);
        lemma_add_contains(entry_actions(prefix, s[0]), entries_actions(prefix, s.drop_first()), x);
    }
}

/// A lookup by name hands back an entry carrying that very name.
pub proof fn lemma_entry_named_name(s: Seq<FsEntry>, name: Seq<char>, e: FsEntry)
    requires
        entry_named(s, name) == Some(e),
    ensures
        e.name@ == name,
    decreases s.len(),
{
    if s.len() == 0 {
    } else if s[0].name@ == name {
    } else {
        lemma_entry_named_name(s.drop_first(), name, e);
    }
}

/// A listing extended by one entry is unreadable exactly when the
/// listing or the new entry is.
pub proof fn lemma_entries_unreadable_push(s: Seq<FsEntry>, e: FsEntry)
    ensures
        entries_have_unreadable(s.push(e)) == (entries_have_unreadable(s) || entry_has_unreadable(
            e,
        )),
    decreases s.len(),
{
    if s.len() == 0 {
        assert(s.push(e)[0] == e);
        assert(s.push(e).drop_first() =~= Seq::<FsEntry>::empty());
        assert(!entries_have_unreadable(Seq::<FsEntry>::empty()));
        assert(entries_have_unreadable(s.push(e)) == entry_has_unreadable(e));
    } else {
        assert(s.push(e)[0] == s[0]);
        assert(s.push(e).drop_first() =~= s.drop_first().push(e));
        lemma_entries_unreadable_push(s.drop_first(), e);
    }
}

/// One unreadable entry makes the whole listing unreadable.
pub proof fn lemma_entries_unreadable_at(s: Seq<FsEntry>, j: int)
    requires
        0 <= j < s.len(),
        entry_has_unreadable(s[j]),
    ensures
        entries_have_unreadable(s),
    decreases s.len(),
{
    if j == 0 {
    } else {
        assert(s.drop_first()[j - 1] == s[j]);
        lemma_entries_unreadable_at(s.drop_first(), j - 1);
    }
}

/// Why one work item, or a whole single-threaded run, stopped: a source
/// file could not be read. Carries the file's path relative to the
/// source root.
#[derive(Clone, PartialEq, Eq, Debug)]
pub struct CopyError {
    pub path: Vec<String>,
}

/// The single-threaded engine: a plain depth-first walk of the source
/// model, appending to `out` exactly the actions that `dir_actions`
/// demands for the directory `src` mirrored at relative path `rel` — in
/// specification order. It stops at the first unreadable file, and it
/// succeeds exactly when the subtree holds none.
pub fn run_recursive(src: &FsDir, rel: &Vec<String>, out: &mut Vec<Action>) -> (r: Result<
    (),
    CopyError,
>)
    ensures
        r is Ok <==> !dir_has_unreadable(*src),
        r is Ok ==> action_views(final(out)@) == action_views(old(out)@) + dir_actions(
            rel.deep_view(),
            *src,
        ),
    decreases *src,
{
    let ghost out0 = out@;
    let ghost relv = rel.deep_view();
    let mut j: usize = 0;
    while j < src.entries.len()
        invariant
            j <= src.entries@.len(),
            relv == rel.deep_view(),
            action_views(out@) == action_views(out0) + entries_actions(
                relv,
                src.entries@.take(j as int),
            ),
            !entries_have_unreadable(src.entries@.take(j as int)),
        decreases src.entries@.len() - j,
    {
        proof {
            assert(src.entries@.take(j as int + 1) =~= src.entries@.take(j as int).push(
                src.entries@[j as int],
            ));
            lemma_entries_actions_push(relv, src.entries@.take(j as int), src.entries@[j as int]);
            lemma_entries_unreadable_push(src.entries@.take(j as int), src.entries@[j as int]);
        }
        let ghost acts_before = entries_actions(relv, src.entries@.take(j as int));
        let entry = &src.entries[j];
        match &entry.data {
            FsData::Dir(sub) => {
                let cpath = child_path(rel, &entry.name);
                let cpath2 = clone_path(&cpath);
                let ghost mid = out@;
                out.push(Action::CreateDir(cpath));
                proof {
                    assert(action_views(out@) =~= action_views(mid).push(
                        ActionV::CreateDir { path: relv.push(entry.name@) },
                    ));
                }
                let ghost before_rec = action_views(out@);
                match run_recursive(sub, &cpath2, out) {
                    Ok(()) => {
                        proof {
                            assert(action_views(out@) =~= action_views(out0) + entries_actions(
                                relv,
                                src.entries@.take(j as int + 1),
                            ));
                        }
                    },
                    Err(e) => {
                        proof {
                            lemma_entries_unreadable_at(src.entries@, j as int);
                        }
                        return Err(e);
                    },
                }
            },
            FsData::File(f) => {
                if f.readable {
                    let cpath = child_path(rel, &entry.name);
                    let bytes = clone_bytes(&f.content);
                    let ghost mid = out@;
                    out.push(Action::CopyFile(cpath, bytes));
                    proof {
                        assert(action_views(out@) =~= action_views(mid).push(
                            ActionV::CopyFile { path: relv.push(entry.name@), content: f.content@ },
                        ));
                        assert(action_views(out@) =~= action_views(out0) + entries_actions(
                            relv,
                            src.entries@.take(j as int + 1),
                        ));
                    }
                } else {
                    let cpath = child_path(rel, &entry.name);
                    proof {
                        lemma_entries_unreadable_at(src.entries@, j as int);
                    }
                    return Err(CopyError { path: cpath });
                }
            },
        }
        j = j + 1;
    }
    proof {
        assert(src.entries@.take(src.entries@.len() as int) =~= src.entries@);
    }
    Ok(())
}

/// Is `d` the directory `root` itself or a directory somewhere below it?
pub open spec fn dir_in_tree(root: FsDir, d: FsDir) -> bool
    decreases root,
{
    root == d || entries_contain_dir(root.entries@, d)
}

pub open spec fn entries_contain_dir(s: Seq<FsEntry>, d: FsDir) -> bool
    decreases s,
{
    if s.len() == 0 {
        false
    } else {
        entry_contains_dir(s[0], d) || entries_contain_dir(s.drop_first(), d)
    }
}

pub open spec fn entry_contains_dir(e: FsEntry, d: FsDir) -> bool
    decreases e,
{
    match e.data {
        FsData::Dir(sub) => dir_in_tree(sub, d),
        FsData::File(_) => false,
    }
}

/// Containment of directories is transitive.
pub proof fn lemma_in_tree_trans(root: FsDir, d: FsDir, d2: FsDir)
    requires
        dir_in_tree(root, d),
        dir_in_tree(d, d2),
    ensures
        dir_in_tree(root, d2),
    decreases root,
{
    if root == d {
    } else {
        lemma_entries_in_tree_trans(root.entries@, d, d2);
    }
}

pub proof fn lemma_entries_in_tree_trans(s: Seq<FsEntry>, d: FsDir, d2: FsDir)
    requires
        entries_contain_dir(s, d),
        dir_in_tree(d, d2),
    ensures
        entries_contain_dir(s, d2),
    decreases s,
{
    if s.len() == 0 {
    } else if entry_contains_dir(s[0], d) {
        match s[0].data {
            FsData::Dir(sub) => {
                lemma_in_tree_trans(sub, d, d2);
                assert(entry_contains_dir(s[0], d2));
            },
            FsData::File(_) => {
                assert(false);
            },
        }
    } else {
        lemma_entries_in_tree_trans(s.drop_first(), d, d2);
    }
}

/// A directory entry of `d` that is itself a directory lies below `d`.
pub proof fn lemma_child_in_tree(d: FsDir, j: int, sub: FsDir)
    requires
        0 <= j < d.entries@.len(),
        d.entries@[j].data == FsData::Dir(sub),
    ensures
        dir_in_tree(d, sub),
{
    lemma_entries_contain_at(d.entries@, j, sub);
}

pub proof fn lemma_entries_contain_at(s: Seq<FsEntry>, j: int, sub: FsDir)
    requires
        0 <= j < s.len(),
        s[j].data == FsData::Dir(sub),
    ensures
        entries_contain_dir(s, sub),
    decreases s.len(),
{
    if j == 0 {
        assert(dir_in_tree(sub, sub));
        assert(entry_contains_dir(s[0], sub));
    } else {
        assert(s.drop_first()[j - 1] == s[j]);
        lemma_entries_contain_at(s.drop_first(), j - 1, sub);
    }
}

/// An unreadable file below `d` is an unreadable file below anything
/// that contains `d`.
pub proof fn lemma_in_tree_unreadable(root: FsDir, d: FsDir)
    requires
        dir_in_tree(root, d),
        dir_has_unreadable(d),
    ensures
        dir_has_unreadable(root),
    decreases root,
{
    if root == d {
    } else {
        lemma_entries_in_tree_unreadable(root.entries@, d);
    }
}

pub proof fn lemma_entries_in_tree_unreadable(s: Seq<FsEntry>, d: FsDir)
    requires
        entries_contain_dir(s, d),
        dir_has_unreadable(d),
    ensures
        entries_have_unreadable(s),
    decreases s,
{
    if s.len() == 0 {
    } else if entry_contains_dir(s[0], d) {
        match s[0].data {
            FsData::Dir(sub) => {
                lemma_in_tree_unreadable(sub, d);
                assert(entry_has_unreadable(s[0]));
            },
            FsData::File(_) => {
                assert(false);
            },
        }
    } else {
        lemma_entries_in_tree_unreadable(s.drop_first(), d);
    }
}

/// A listing extended by one entry weighs the listing plus the entry.
pub proof fn lemma_entries_size_push(s: Seq<FsEntry>, e: FsEntry)
    ensures
        entries_size(s.push(e)) == entries_size(s) + entry_size(e),
    decreases s.len(),
{
    if s.len() == 0 {
        assert(s.push(e)[0] == e);
        assert(s.push(e).drop_first() =~= Seq::<FsEntry>::empty());
        assert(entries_size(Seq::<FsEntry>::empty()) == 0);
    } else {
        assert(s.push(e)[0] == s[0]);
        assert(s.push(e).drop_first() =~= s.drop_first().push(e));
        lemma_entries_size_push(s.drop_first(), e);
    }
}

/// A prefix of a listing weighs no more than the listing.
pub proof fn lemma_entries_size_take_le(s: Seq<FsEntry>, j: int)
    requires
        0 <= j <= s.len(),
    ensures
        entries_size(s.take(j)) <= entries_size(s),
    decreases s.len() - j,
{
    if j == s.len() {
        assert(s.take(j) =~= s);
    } else {
        assert(s.take(j + 1) =~= s.take(j).push(s[j]));
        lemma_entries_size_push(s.take(j), s[j]);
        lemma_entries_size_take_le(s, j + 1);
    }
}

/// The actions still owed by the pending part of the queue (all slots
/// from `h` on): for each pending item, the full action multiset of its
/// source directory mirrored at the item's path.
pub open spec fn pending_ms(q: Seq<(WorkItem, &FsDir)>, h: int) -> Multiset<ActionV>
    decreases q.len() - h,
{
    if h < 0 || h >= q.len() {
        Multiset::empty()
    } else {
        dir_actions(q[h].0.path.deep_view(), *q[h].1).to_multiset().add(pending_ms(q, h + 1))
    }
}

/// Total size of the pending source directories; the termination
/// measure of the queue-driven walk.
pub open spec fn qsize(q: Seq<(WorkItem, &FsDir)>, h: int) -> nat
    decreases q.len() - h,
{
    if h < 0 || h >= q.len() {
        0
    } else {
        dir_size(*q[h].1) + qsize(q, h + 1)
    }
}

/// The identities of the nodes whose work items are still pending.
pub open spec fn pending_ids(q: Seq<(WorkItem, &FsDir)>, h: int) -> Set<int> {
    Set::new(
        |j: int| exists|k: int| h <= k < q.len() && (#[trigger] q[k]).0.node.id as int == j,
    )
}

pub proof fn lemma_pending_ms_push(q: Seq<(WorkItem, &FsDir)>, x: (WorkItem, &FsDir), h: int)
    requires
        0 <= h <= q.len(),
    ensures
        pending_ms(q.push(x), h) == pending_ms(q, h).add(
            dir_actions(x.0.path.deep_view(), *x.1).to_multiset(),
        ),
    decreases q.len() - h,
{
    broadcast use vstd::multiset::group_multiset_axioms;

    let xms = dir_actions(x.0.path.deep_view(), *x.1).to_multiset();
    if h == q.len() {
        assert(q.push(x)[h] == x);
        assert(pending_ms(q.push(x), h + 1) == Multiset::<ActionV>::empty());
        assert(pending_ms(q, h) == Multiset::<ActionV>::empty());
        assert(xms.add(Multiset::empty()) =~= Multiset::<ActionV>::empty().add(xms));
    } else {
        assert(q.push(x)[h] == q[h]);
        lemma_pending_ms_push(q, x, h + 1);
        let dh = dir_actions(q[h].0.path.deep_view(), *q[h].1).to_multiset();
        let rest = pending_ms(q, h + 1);
        assert(dh.add(rest.add(xms)) =~= (dh.add(rest)).add(xms));
    }
}

/// Pending actions of a queue that grew at the back split into the old
/// pending part and the appended part.
pub proof fn lemma_pending_ms_prefix(q: Seq<(WorkItem, &FsDir)>, q2: Seq<(WorkItem, &FsDir)>, i: int)
    requires
        q.len() <= q2.len(),
        forall|k: int| 0 <= k < q.len() ==> q2[k] == q[k],
        0 <= i <= q.len(),
    ensures
        pending_ms(q2, i) == pending_ms(q, i).add(pending_ms(q2, q.len() as int)),
    decreases q.len() - i,
{
    broadcast use vstd::multiset::group_multiset_axioms;

    if i == q.len() {
        assert(pending_ms(q, i) == Multiset::<ActionV>::empty());
        assert(pending_ms(q, i).add(pending_ms(q2, q.len() as int)) =~= pending_ms(
            q2,
            q.len() as int,
        ));
    } else {
        lemma_pending_ms_prefix(q, q2, i + 1);
        let dh = dir_actions(q[i].0.path.deep_view(), *q[i].1).to_multiset();
        assert(q2[i] == q[i]);
        assert(dh.add(pending_ms(q, i + 1).add(pending_ms(q2, q.len() as int))) =~= (dh.add(
            pending_ms(q, i + 1),
        )).add(pending_ms(q2, q.len() as int)));
    }
}

/// Same split for the size measure.
pub proof fn lemma_qsize_prefix(q: Seq<(WorkItem, &FsDir)>, q2: Seq<(WorkItem, &FsDir)>, i: int)
    requires
        q.len() <= q2.len(),
        forall|k: int| 0 <= k < q.len() ==> q2[k] == q[k],
        0 <= i <= q.len(),
    ensures
        qsize(q2, i) == qsize(q, i) + qsize(q2, q.len() as int),
    decreases q.len() - i,
{
    if i == q.len() {
        assert(qsize(q, i) == 0);
    } else {
        lemma_qsize_prefix(q, q2, i + 1);
        assert(q2[i] == q[i]);
    }
}

pub proof fn lemma_qsize_push(q: Seq<(WorkItem, &FsDir)>, x: (WorkItem, &FsDir), h: int)
    requires
        0 <= h <= q.len(),
    ensures
        qsize(q.push(x), h) == qsize(q, h) + dir_size(*x.1),
    decreases q.len() - h,
{
    if h == q.len() {
        assert(q.push(x)[h] == x);
        assert(qsize(q.push(x), h + 1) == 0);
        assert(qsize(q, h) == 0);
    } else {
        assert(q.push(x)[h] == q[h]);
        lemma_qsize_push(q, x, h + 1);
    }
}

/// Mirroring: every file of the source tree is copied. If following
/// `path` from `d` reaches a file, then the actions of copying `d`
/// under `prefix` include writing that file's bytes at `prefix + path`.
pub proof fn lemma_every_file_is_copied(
    prefix: Seq<Seq<char>>,
    d: FsDir,
    path: Seq<Seq<char>>,
    f: FsFile,
)
    requires
        file_at(d, path) == Some(f),
    ensures
        dir_actions(prefix, d).contains(
            ActionV::CopyFile { path: prefix + path, content: f.content@ },
        ),
    decreases path.len(),
{
    let e = entry_named(d.entries@, path[0]);
    match e {
        None => {},
        Some(e) => {
            lemma_entry_named_name(d.entries@, path[0], e);
            match e.data {
                FsData::File(f2) => {
                    let x = ActionV::CopyFile { path: prefix.push(path[0]), content: f.content@ };
                    assert(entry_actions(prefix, e)[0] == x);
                    assert(entry_actions(prefix, e).contains(x));
                    lemma_entry_actions_in_listing(prefix, d.entries@, path[0], e, x);
                    assert(prefix.push(path[0]) =~= prefix + path);
                },
                FsData::Dir(sub) => {
                    let child_prefix = prefix.push(path[0]);
                    lemma_every_file_is_copied(child_prefix, sub, path.drop_first(), f);
                    let x = ActionV::CopyFile {
                        path: child_prefix + path.drop_first(),
                        content: f.content@,
                    };
                    lemma_add_contains(
                        seq![ActionV::CreateDir { path: child_prefix }],
                        dir_actions(child_prefix, sub),
                        x,
                    );
                    lemma_entry_actions_in_listing(prefix, d.entries@, path[0], e, x);
                    assert(child_prefix + path.drop_first() =~= prefix + path);
                },
            }
        },
    }
}

/// Structural completeness: every directory of the source tree is
/// created. If following `path` (non-empty) from `d` reaches a
/// directory, then the actions of copying `d` under `prefix` include
/// creating `prefix + path`.
pub proof fn lemma_every_dir_is_created(prefix: Seq<Seq<char>>, d: FsDir, path: Seq<Seq<char>>)
    requires
        dir_at(d, path) is Some,
        path.len() > 0,
    ensures
        dir_actions(prefix, d).contains(ActionV::CreateDir { path: prefix + path }),
    decreases path.len(),
{
    let e = entry_named(d.entries@, path[0]);
    match e {
        None => {},
        Some(e) => {
            lemma_entry_named_name(d.entries@, path[0], e);
            match e.data {
                FsData::File(_) => {},
                FsData::Dir(sub) => {
                    let child_prefix = prefix.push(path[0]);
                    if path.len() == 1 {
                        let x = ActionV::CreateDir { path: child_prefix };
                        assert(entry_actions(prefix, e)[0] == x);
                        assert(entry_actions(prefix, e).contains(x));
                        lemma_entry_actions_in_listing(prefix, d.entries@, path[0], e, x);
                        assert(child_prefix =~= prefix + path);
                    } else {
                        lemma_every_dir_is_created(child_prefix, sub, path.drop_first());
                        let x = ActionV::CreateDir { path: child_prefix + path.drop_first() };
                        lemma_add_contains(
                            seq![ActionV::CreateDir { path: child_prefix }],
                            dir_actions(child_prefix, sub),
                            x,
                        );
                        lemma_entry_actions_in_listing(prefix, d.entries@, path[0], e, x);
                        assert(child_prefix + path.drop_first() =~= prefix + path);
                    }
                },
            }
        },
    }
}

/// Convergence: two complete runs over the same source perform exactly
/// the same actions, whatever order their schedulers picked — so the
/// destination trees they build are identical. Both engines' contracts
/// tie their output to `dir_actions`, and this states the consequence.
pub proof fn lemma_convergent_destinations(
    prefix: Seq<Seq<char>>,
    d: FsDir,
    s1: Seq<Action>,
    s2: Seq<Action>,
)
    requires
        action_views(s1).to_multiset() == dir_actions(prefix, d).to_multiset(),
        action_views(s2).to_multiset() == dir_actions(prefix, d).to_multiset(),
    ensures
        action_views(s1).to_multiset() == action_views(s2).to_multiset(),
{
}

/// Result of a queue-driven run: the actions the surrounding program
/// must perform, the read errors hit, and the completion tree in its
/// final state. Slot 0 of the tree is the root node.
pub struct QueueRun {
    pub actions: Vec<Action>,
    pub errors: Vec<CopyError>,
    pub tree: DirTree,
    pub root: SharedNodeRef,
}

/// The queue-driven engine: work items are taken in arrival order, each
/// one lists its directory, enqueues a fresh item per subdirectory
/// (attaching the child node first), emits the copy actions for its
/// files, and then evaluates its node and climbs. It performs exactly
/// the actions of `dir_actions` (up to order) when every file is
/// readable, and reports at least one error — leaving the root
/// incomplete — as soon as some file is not.
pub fn run_queued(src: &FsDir) -> (r: QueueRun)
    ensures
        r.root.id == 0,
        r.tree@.len() >= 1,
        tree_inv(r.tree@),
        (r.errors@.len() == 0) <==> !dir_has_unreadable(*src),
        r.errors@.len() == 0 ==> action_views(r.actions@).to_multiset() == dir_actions(
            Seq::<Seq<char>>::empty(),
            *src,
        ).to_multiset(),
        !dir_has_unreadable(*src) ==> r.tree@[0].copied,
        dir_has_unreadable(*src) ==> !r.tree@[0].copied,
{
    let mut tree = DirTree::new();
    let root_node = DirNode::new(Vec::new());
    let root = SharedNodeRef::new(&mut tree, root_node);
    let mut queue: Vec<(WorkItem, &FsDir)> = Vec::new();
    let item0 = WorkItem { path: Vec::new(), node: root };
    queue.push((item0, src));
    let mut actions: Vec<Action> = Vec::new();
    let mut errors: Vec<CopyError> = Vec::new();
    let mut head: usize = 0;
    let ghost total = dir_actions(Seq::<Seq<char>>::empty(), *src).to_multiset();

    proof {
        broadcast use vstd::multiset::group_multiset_axioms;
        broadcast use vstd::seq_lib::group_to_multiset_ensures;

        assert(queue@[0].0.path.deep_view() =~= Seq::<Seq<char>>::empty());
        assert(pending_ms(queue@, 1) == Multiset::<ActionV>::empty());
        assert(action_views(actions@).to_multiset().len() == 0);
        vstd::multiset::lemma_multiset_empty_len::<ActionV>(action_views(actions@).to_multiset());
        assert(action_views(actions@).to_multiset().add(pending_ms(queue@, 0)) =~= total);
        assert(tree_wf(tree@));
        assert(tree_inv(tree@));
        assert(rooted(tree@));
        assert(uncopied_children_listed(tree@)) by {
            assert forall|c: int, p: int|
                #[trigger] child_of(tree@, c, p) && !tree@[c].copied && 0 <= p
                    < tree@.len() implies tree@[p].kids.contains(c) by {
                assert(c == 0 && tree@[0].parent is None);
            }
        }
        assert(kids_point_to_children(tree@));
        assert(pend_fresh(tree@, pending_ids(queue@, 0))) by {
            assert forall|p: int| #[trigger] pending_ids(queue@, 0).contains(p) implies 0 <= p
                < tree@.len() && !tree@[p].copied && !tree@[p].failed && tree@[p].kids.len() == 0
                && (forall|c: int| !child_of(tree@, c, p)) by {
                assert(p == 0);
                assert forall|c: int| !child_of(tree@, c, p) by {
                    if 0 <= c < tree@.len() {
                        assert(tree@[0].parent is None);
                    }
                }
            }
        }
        assert(eager(tree@, pending_ids(queue@, 0))) by {
            assert(queue@[0].0.node.id as int == 0);
            assert(pending_ids(queue@, 0).contains(0));
        }
    }

    while head < queue.len()
        invariant
            head <= queue@.len(),
            tree@.len() >= 1,
            tree_wf(tree@),
            errors@.len() == 0 ==> action_views(actions@).to_multiset().add(
                pending_ms(queue@, head as int),
            ) == total,
            total == dir_actions(Seq::<Seq<char>>::empty(), *src).to_multiset(),
            forall|k: int|
                head <= k < queue@.len() ==> dir_in_tree(*src, *(#[trigger] queue@[k]).1),
            dir_has_unreadable(*src) ==> errors@.len() > 0 || exists|k: int|
                head <= k < queue@.len() && dir_has_unreadable(*(#[trigger] queue@[k]).1),
            errors@.len() > 0 ==> dir_has_unreadable(*src),
            forall|k: int|
                head <= k < queue@.len() ==> (#[trigger] queue@[k]).0.node.id < tree@.len(),
            tree_inv(tree@),
            rooted(tree@),
            uncopied_children_listed(tree@),
            kids_point_to_children(tree@),
            pend_fresh(tree@, pending_ids(queue@, head as int)),
            eager(tree@, pending_ids(queue@, head as int)),
            forall|k1: int, k2: int|
                head <= k1 < k2 < queue@.len() ==> (#[trigger] queue@[k1]).0.node.id != (
                #[trigger] queue@[k2]).0.node.id,
            errors@.len() == 0 ==> (forall|jj: int|
                0 <= jj < tree@.len() ==> !(#[trigger] tree@[jj]).failed),
            errors@.len() > 0 ==> (exists|jj: int|
                0 <= jj < tree@.len() && (#[trigger] tree@[jj]).failed),
        decreases qsize(queue@, head as int),
    {
        let ghost q0 = queue@;
        let ghost h = head as int;
        let ghost a0 = actions@;
        let ghost e0 = errors@;
        let ghost tlen0 = tree@.len() as int;
        let d: &FsDir = queue[head].1;
        let node = queue[head].0.node;
        let base = clone_path(&queue[head].0.path);
        let ghost basev = base.deep_view();
        let ghost dv = *d;
        let mut j: usize = 0;
        let mut failed = false;

        proof {
            broadcast use vstd::multiset::group_multiset_axioms;
            broadcast use vstd::seq_lib::group_to_multiset_ensures;

            assert(pending_ms(q0, h) == dir_actions(basev, dv).to_multiset().add(
                pending_ms(q0, h + 1),
            ));
            assert(qsize(q0, h) == dir_size(dv) + qsize(q0, h + 1));
            assert(dv.entries@.take(0) =~= Seq::<FsEntry>::empty());
            assert(entries_actions(basev, Seq::<FsEntry>::empty()) == Seq::<ActionV>::empty());
            assert(entries_size(Seq::<FsEntry>::empty()) == 0);
            assert(!entries_have_unreadable(Seq::<FsEntry>::empty()));
            assert(Seq::<ActionV>::empty().to_multiset().len() == 0);
            vstd::multiset::lemma_multiset_empty_len::<ActionV>(
                Seq::<ActionV>::empty().to_multiset(),
            );
            assert(pending_ms(queue@, q0.len() as int) == Multiset::<ActionV>::empty());
            assert(qsize(queue@, q0.len() as int) == 0);
            if e0.len() == 0 {
                assert(action_views(actions@).to_multiset().add(
                    pending_ms(queue@, q0.len() as int),
                ) =~= action_views(a0).to_multiset().add(
                    entries_actions(basev, dv.entries@.take(0)).to_multiset(),
                ));
            }
            // the head item leaves the pending set; the rest stays
            let nid = node.id as int;
            assert(q0[h].0.node.id as int == nid);
            assert(pending_ids(q0, h).contains(nid));
            assert(pending_ids(q0, h) =~= pending_ids(q0, h + 1).insert(nid)) by {
                assert forall|x: int|
                    pending_ids(q0, h).contains(x) implies pending_ids(q0, h + 1).insert(
                    nid,
                ).contains(x) by {
                    let k = choose|k: int|
                        h <= k < q0.len() && (#[trigger] q0[k]).0.node.id as int == x;
                    if k == h {
                    } else {
                        assert(pending_ids(q0, h + 1).contains(x));
                    }
                }
                assert forall|x: int|
                    pending_ids(q0, h + 1).insert(nid).contains(x) implies pending_ids(
                    q0,
                    h,
                ).contains(x) by {
                    if x == nid {
                    } else {
                        let k = choose|k: int|
                            h + 1 <= k < q0.len() && (#[trigger] q0[k]).0.node.id as int == x;
                        assert(q0[k].0.node.id as int == x);
                    }
                }
            }
            assert(pend_fresh(tree@, pending_ids(q0, h + 1))) by {
                assert forall|x: int|
                    #[trigger] pending_ids(q0, h + 1).contains(x) implies 0 <= x < tree@.len()
                    && !tree@[x].copied && !tree@[x].failed && tree@[x].kids.len() == 0 && (
                forall|c: int| !child_of(tree@, c, x)) by {
                    assert(pending_ids(q0, h).contains(x));
                }
            }
            assert(eager(tree@, pending_ids(q0, h + 1).insert(nid)));
            assert(!tree@[nid].copied && !tree@[nid].failed);
            assert forall|k: int|
                h + 1 <= k < q0.len() implies (#[trigger] q0[k]).0.node.id != node.id by {
                assert(q0[h].0.node.id != q0[k].0.node.id);
            }
        }

        while j < d.entries.len() && !failed
            invariant
                j <= d.entries@.len(),
                dv == *d,
                basev == base.deep_view(),
                h == head as int,
                head < q0.len(),
                q0.len() <= queue@.len(),
                forall|k: int| 0 <= k < q0.len() ==> queue@[k] == q0[k],
                node == q0[h].0.node,
                node.id < tree@.len(),
                tree@.len() >= 1,
                tree_wf(tree@),
                dir_in_tree(*src, dv),
                forall|k: int|
                    head <= k < queue@.len() ==> dir_in_tree(*src, *(#[trigger] queue@[k]).1),
                forall|k: int|
                    head <= k < queue@.len() ==> (#[trigger] queue@[k]).0.node.id < tree@.len(),
                tree_inv(tree@),
                rooted(tree@),
                uncopied_children_listed(tree@),
                kids_point_to_children(tree@),
                pend_fresh(tree@, pending_ids(queue@, h + 1)),
                eager(tree@, pending_ids(queue@, h + 1).insert(node.id as int)),
                !tree@[node.id as int].copied,
                !tree@[node.id as int].failed,
                node.id < tlen0,
                tlen0 <= tree@.len(),
                forall|k: int|
                    h + 1 <= k < q0.len() ==> (#[trigger] queue@[k]).0.node.id != node.id,
                forall|k: int|
                    h + 1 <= k < q0.len() ==> (#[trigger] queue@[k]).0.node.id < tlen0,
                forall|k: int|
                    q0.len() <= k < queue@.len() ==> tlen0 <= (#[trigger] queue@[k]).0.node.id
                        < tree@.len(),
                forall|k1: int, k2: int|
                    q0.len() <= k1 < k2 < queue@.len() ==> (#[trigger] queue@[k1]).0.node.id < (
                    #[trigger] queue@[k2]).0.node.id,
                forall|k1: int, k2: int|
                    h + 1 <= k1 < k2 < q0.len() ==> (#[trigger] queue@[k1]).0.node.id != (
                    #[trigger] queue@[k2]).0.node.id,
                e0.len() > 0 ==> (exists|jj: int|
                    0 <= jj < tree@.len() && (#[trigger] tree@[jj]).failed),
                e0.len() == 0 ==> (forall|jj: int|
                    0 <= jj < tree@.len() ==> !(#[trigger] tree@[jj]).failed),
                !failed ==> errors@ == e0,
                failed ==> errors@.len() > 0,
                errors@.len() > 0 ==> dir_has_unreadable(*src),
                !failed && e0.len() == 0 ==> action_views(actions@).to_multiset().add(
                    pending_ms(queue@, q0.len() as int),
                ) == action_views(a0).to_multiset().add(
                    entries_actions(basev, dv.entries@.take(j as int)).to_multiset(),
                ),
                !failed ==> (entries_have_unreadable(dv.entries@.take(j as int)) ==> exists|k: int|
                    q0.len() <= k < queue@.len() && dir_has_unreadable(*(#[trigger] queue@[k]).1)),
                qsize(queue@, q0.len() as int) <= entries_size(dv.entries@.take(j as int)),
            decreases d.entries@.len() - j,
        {
            proof {
                broadcast use vstd::multiset::group_multiset_axioms;
                broadcast use vstd::seq_lib::group_to_multiset_ensures;

                assert(dv.entries@.take(j as int + 1) =~= dv.entries@.take(j as int).push(
                    dv.entries@[j as int],
                ));
                lemma_entries_actions_push(basev, dv.entries@.take(j as int), dv.entries@[j as int]);
                lemma_entries_unreadable_push(dv.entries@.take(j as int), dv.entries@[j as int]);
                lemma_entries_size_push(dv.entries@.take(j as int), dv.entries@[j as int]);
                lemma_multiset_commutative(
                    entries_actions(basev, dv.entries@.take(j as int)),
                    entry_actions(basev, dv.entries@[j as int]),
                );
            }
            let entry = &d.entries[j];
            match &entry.data {
                FsData::Dir(sub) => {
                    let cpath = child_path(&base, &entry.name);
                    let cpath2 = clone_path(&cpath);
                    let ghost acts_pre = actions@;
                    actions.push(Action::CreateDir(cpath));
                    let mut child = DirNode::new(cpath2);
                    child.set_parent(node);
                    let ghost t_pre = tree@;
                    let child_ref = SharedNodeRef::new(&mut tree, child);
                    tree.attach(node, child_ref);
                    let cpath3 = child_path(&base, &entry.name);
                    let ghost q_pre = queue@;
                    queue.push((WorkItem { path: cpath3, node: child_ref }, sub));
                    proof {
                        broadcast use vstd::multiset::group_multiset_axioms;
                        broadcast use vstd::seq_lib::group_to_multiset_ensures;

                        // the tree stays well-formed: one appended leaf, one
                        // extended child list
                        assert forall|i2: int|
                            0 <= i2 < tree@.len() implies crate::dir_tree::node_wf(tree@, i2) by {
                            if i2 < t_pre.len() && i2 != node.id as int {
                                assert(crate::dir_tree::node_wf(t_pre, i2));
                                assert(tree@[i2] == t_pre[i2]);
                            } else if i2 == node.id as int {
                                assert(crate::dir_tree::node_wf(t_pre, i2));
                                assert(tree@[i2].kids == t_pre[i2].kids.push(
                                    t_pre.len() as int,
                                ));
                            } else {
                                assert(tree@[i2].kids.len() == 0);
                            }
                        }
                        // conservation: the new CreateDir action plus the new
                        // pending child account exactly for this entry
                        assert(dv.entries@[j as int] == *entry);
                        assert(dv.entries@[j as int].data == FsData::Dir(*sub));
                        assert(entry_actions(basev, dv.entries@[j as int]) == seq![
                            ActionV::CreateDir { path: basev.push(entry.name@) },
                        ] + dir_actions(basev.push(entry.name@), *sub));
                        lemma_pending_ms_push(
                            q_pre,
                            (WorkItem { path: cpath3, node: child_ref }, sub),
                            q0.len() as int,
                        );
                        assert(action_views(actions@) =~= action_views(acts_pre).push(
                            ActionV::CreateDir { path: basev.push(entry.name@) },
                        ));
                        lemma_multiset_commutative(
                            seq![ActionV::CreateDir { path: basev.push(entry.name@) }],
                            dir_actions(basev.push(entry.name@), *sub),
                        );
                        assert(seq![ActionV::CreateDir { path: basev.push(entry.name@) }]
                            =~= Seq::<ActionV>::empty().push(
                            ActionV::CreateDir { path: basev.push(entry.name@) },
                        ));
                        assert(Seq::<ActionV>::empty().to_multiset().len() == 0);
                        vstd::multiset::lemma_multiset_empty_len::<ActionV>(
                            Seq::<ActionV>::empty().to_multiset(),
                        );
                        if !failed && e0.len() == 0 {
                            let cd = ActionV::CreateDir { path: basev.push(entry.name@) };
                            let chms = dir_actions(basev.push(entry.name@), *sub).to_multiset();
                            assert(action_views(acts_pre).to_multiset().add(
                                pending_ms(q_pre, q0.len() as int),
                            ) == action_views(a0).to_multiset().add(
                                entries_actions(
                                    basev,
                                    dv.entries@.take(j as int),
                                ).to_multiset(),
                            ));
                            assert(action_views(actions@).to_multiset() =~= action_views(
                                acts_pre,
                            ).to_multiset().insert(cd));
                            assert(seq![cd].to_multiset() =~= Multiset::<ActionV>::empty().insert(
                                cd,
                            ));
                            assert(entries_actions(
                                basev,
                                dv.entries@.take(j as int + 1),
                            ).to_multiset() =~= entries_actions(
                                basev,
                                dv.entries@.take(j as int),
                            ).to_multiset().add(seq![cd].to_multiset()).add(chms));
                            assert(pending_ms(queue@, q0.len() as int) == pending_ms(
                                q_pre,
                                q0.len() as int,
                            ).add(chms));
                            assert(action_views(actions@).to_multiset().add(
                                pending_ms(queue@, q0.len() as int),
                            ) =~= action_views(acts_pre).to_multiset().add(
                                pending_ms(q_pre, q0.len() as int),
                            ).insert(cd).add(chms));
                            assert(action_views(a0).to_multiset().add(
                                entries_actions(
                                    basev,
                                    dv.entries@.take(j as int + 1),
                                ).to_multiset(),
                            ) =~= action_views(a0).to_multiset().add(
                                entries_actions(
                                    basev,
                                    dv.entries@.take(j as int),
                                ).to_multiset(),
                            ).insert(cd).add(chms));
                            assert(action_views(actions@).to_multiset().add(
                                pending_ms(queue@, q0.len() as int),
                            ) == action_views(a0).to_multiset().add(
                                entries_actions(
                                    basev,
                                    dv.entries@.take(j as int + 1),
                                ).to_multiset(),
                            ));
                        }
                        // a subtree of a subtree of the source
                        lemma_child_in_tree(dv, j as int, *sub);
                        lemma_in_tree_trans(*src, dv, *sub);
                        // size bookkeeping
                        lemma_qsize_push(
                            q_pre,
                            (WorkItem { path: cpath3, node: child_ref }, sub),
                            q0.len() as int,
                        );
                        // unreadable bookkeeping: a new pending item covers a
                        // possibly unreadable subtree
                        if entries_have_unreadable(dv.entries@.take(j as int + 1)) && !failed {
                            if entries_have_unreadable(dv.entries@.take(j as int)) {
                                let k0 = choose|k0: int|
                                    q0.len() <= k0 < q_pre.len() && dir_has_unreadable(
                                        *q_pre[k0].1,
                                    );
                                assert(dir_has_unreadable(*(queue@[k0]).1));
                            } else {
                                assert(dir_has_unreadable(*(queue@[queue@.len() - 1]).1));
                            }
                        }
                        // the completion-tree invariants survive one more
                        // attached child
                        let nid = node.id as int;
                        let newid = child_ref.id as int;
                        let t_aft = tree@;
                        assert(newid == t_pre.len());
                        assert(t_aft[newid].parent == Some(nid));
                        assert(!t_aft[newid].copied && !t_aft[newid].failed);
                        assert(t_aft[newid].kids.len() == 0);
                        assert(forall|i2: int|
                            0 <= i2 < t_pre.len() && i2 != nid ==> t_aft[i2] == t_pre[i2]);
                        assert(t_aft[nid].kids == t_pre[nid].kids.push(newid));
                        assert(tree_inv(t_aft)) by {
                            assert forall|i2: int|
                                0 <= i2 < t_aft.len() && (#[trigger] t_aft[i2]).copied implies
                                t_aft[i2].kids.len() == 0 && !t_aft[i2].failed by {
                                if i2 == nid {
                                    assert(!t_pre[nid].copied);
                                    assert(false);
                                } else if i2 == newid {
                                    assert(false);
                                }
                            }
                        }
                        assert(rooted(t_aft)) by {
                            assert(newid >= 1);
                            assert(t_aft[0].parent == t_pre[0].parent);
                            assert forall|j2: int|
                                1 <= j2 < t_aft.len() implies (#[trigger] t_aft[j2]).parent
                                is Some by {
                                if j2 != newid && j2 != nid {
                                    assert(t_aft[j2] == t_pre[j2]);
                                }
                            }
                        }
                        assert(uncopied_children_listed(t_aft)) by {
                            assert forall|c: int, p2: int|
                                #[trigger] child_of(t_aft, c, p2) && !t_aft[c].copied && 0 <= p2
                                    < t_aft.len() implies t_aft[p2].kids.contains(c) by {
                                if c == newid {
                                    assert(p2 == nid);
                                    assert(t_aft[nid].kids[t_pre[nid].kids.len() as int]
                                        == newid);
                                } else {
                                    assert(child_of(t_pre, c, p2));
                                    assert(node_wf(t_pre, c));
                                    assert(t_pre[p2].kids.contains(c));
                                    if p2 == nid {
                                        let ix = choose|ix: int|
                                            0 <= ix < t_pre[nid].kids.len()
                                                && t_pre[nid].kids[ix] == c;
                                        assert(t_aft[nid].kids[ix] == c);
                                    }
                                }
                            }
                        }
                        assert(kids_point_to_children(t_aft)) by {
                            assert forall|p2: int, c: int|
                                0 <= p2 < t_aft.len() && #[trigger] t_aft[p2].kids.contains(
                                    c,
                                ) implies child_of(t_aft, c, p2) by {
                                if p2 == nid {
                                    let ix = choose|ix: int|
                                        0 <= ix < t_aft[nid].kids.len() && t_aft[nid].kids[ix]
                                            == c;
                                    if ix < t_pre[nid].kids.len() {
                                        assert(t_pre[nid].kids[ix] == c);
                                        assert(t_pre[nid].kids.contains(c));
                                        assert(child_of(t_pre, c, nid));
                                    } else {
                                        assert(c == newid);
                                    }
                                } else if p2 == newid {
                                    assert(false);
                                } else {
                                    assert(t_aft[p2].kids == t_pre[p2].kids);
                                    assert(t_pre[p2].kids.contains(c));
                                    assert(child_of(t_pre, c, p2));
                                }
                            }
                        }
                        let pold = pending_ids(q_pre, h + 1);
                        let pnew = pending_ids(queue@, h + 1);
                        assert(pnew =~= pold.insert(newid)) by {
                            assert forall|x: int|
                                pnew.contains(x) implies pold.insert(newid).contains(x) by {
                                let k = choose|k: int|
                                    h + 1 <= k < queue@.len() && (
                                    #[trigger] queue@[k]).0.node.id as int == x;
                                if k < q_pre.len() {
                                    assert(q_pre[k] == queue@[k]);
                                    assert(pold.contains(x));
                                } else {
                                    assert(x == newid);
                                }
                            }
                            assert forall|x: int|
                                pold.insert(newid).contains(x) implies pnew.contains(x) by {
                                if x == newid {
                                    assert(queue@[queue@.len() - 1].0.node.id as int == x);
                                } else {
                                    let k = choose|k: int|
                                        h + 1 <= k < q_pre.len() && (
                                        #[trigger] q_pre[k]).0.node.id as int == x;
                                    assert(queue@[k] == q_pre[k]);
                                    assert(queue@[k].0.node.id as int == x);
                                }
                            }
                        }
                        assert(pend_fresh(t_aft, pnew)) by {
                            assert forall|x: int|
                                #[trigger] pnew.contains(x) implies 0 <= x < t_aft.len()
                                && !t_aft[x].copied && !t_aft[x].failed && t_aft[x].kids.len()
                                    == 0 && (forall|c: int| !child_of(t_aft, c, x)) by {
                                if x == newid {
                                    assert forall|c: int| !child_of(t_aft, c, newid) by {
                                        if 0 <= c < t_aft.len() && t_aft[c].parent == Some(
                                            newid,
                                        ) {
                                            assert(node_wf(t_aft, c));
                                            assert(newid < c < t_aft.len());
                                            assert(false);
                                        }
                                    }
                                } else {
                                    assert(pold.contains(x));
                                    assert(x != nid);
                                    assert(t_aft[x] == t_pre[x]);
                                    assert forall|c: int| !child_of(t_aft, c, x) by {
                                        if 0 <= c < t_aft.len() && t_aft[c].parent == Some(x) {
                                            if c == newid {
                                                assert(x == nid);
                                                assert(false);
                                            } else {
                                                assert(child_of(t_pre, c, x));
                                                assert(false);
                                            }
                                        }
                                    }
                                }
                            }
                        }
                        assert(eager(t_aft, pnew.insert(nid))) by {
                            assert forall|p2: int|
                                0 <= p2 < t_aft.len() && !(#[trigger] t_aft[p2]).failed
                                    && !pnew.insert(nid).contains(p2) && kids_all_copied(
                                    t_aft,
                                    p2,
                                ) implies t_aft[p2].copied by {
                                assert(pnew.contains(newid));
                                assert(p2 != newid && p2 != nid);
                                assert(t_aft[p2] == t_pre[p2]);
                                assert(kids_all_copied(t_pre, p2)) by {
                                    assert forall|c: int| #[trigger] child_of(t_pre, c, p2)
                                        implies t_pre[c].copied by {
                                        assert(child_of(t_aft, c, p2));
                                        assert(t_aft[c].copied);
                                        assert(c != newid);
                                        if c == nid {
                                            assert(t_aft[nid].copied == t_pre[nid].copied);
                                        }
                                    }
                                }
                                assert(!pold.insert(nid).contains(p2));
                                assert(t_pre[p2].copied);
                            }
                        }
                        assert(queue@[queue@.len() - 1].0.node.id == child_ref.id);
                    }
                },
                FsData::File(f) => {
                    if f.readable {
                        let cpath = child_path(&base, &entry.name);
                        let bytes = clone_bytes(&f.content);
                        let ghost acts_pre = actions@;
                        actions.push(Action::CopyFile(cpath, bytes));
                        proof {
                            broadcast use vstd::multiset::group_multiset_axioms;
                            broadcast use vstd::seq_lib::group_to_multiset_ensures;

                            assert(dv.entries@[j as int] == *entry);
                            assert(dv.entries@[j as int].data == FsData::File(*f));
                            assert(entry_actions(basev, dv.entries@[j as int]) == seq![
                                ActionV::CopyFile {
                                    path: basev.push(entry.name@),
                                    content: f.content@,
                                },
                            ]);
                            assert(action_views(actions@) =~= action_views(acts_pre).push(
                                ActionV::CopyFile {
                                    path: basev.push(entry.name@),
                                    content: f.content@,
                                },
                            ));
                            assert(seq![
                                ActionV::CopyFile {
                                    path: basev.push(entry.name@),
                                    content: f.content@,
                                },
                            ] =~= Seq::<ActionV>::empty().push(
                                ActionV::CopyFile {
                                    path: basev.push(entry.name@),
                                    content: f.content@,
                                },
                            ));
                            assert(Seq::<ActionV>::empty().to_multiset().len() == 0);
                            vstd::multiset::lemma_multiset_empty_len::<ActionV>(
                                Seq::<ActionV>::empty().to_multiset(),
                            );
                            if !failed && e0.len() == 0 {
                                let x = ActionV::CopyFile {
                                    path: basev.push(entry.name@),
                                    content: f.content@,
                                };
                                assert(action_views(acts_pre).to_multiset().add(
                                    pending_ms(queue@, q0.len() as int),
                                ) == action_views(a0).to_multiset().add(
                                    entries_actions(
                                        basev,
                                        dv.entries@.take(j as int),
                                    ).to_multiset(),
                                ));
                                assert(action_views(actions@).to_multiset() =~= action_views(
                                    acts_pre,
                                ).to_multiset().insert(x));
                                assert(seq![x].to_multiset() =~= Multiset::<ActionV>::empty()
                                    .insert(x));
                                assert(entries_actions(
                                    basev,
                                    dv.entries@.take(j as int + 1),
                                ).to_multiset() =~= entries_actions(
                                    basev,
                                    dv.entries@.take(j as int),
                                ).to_multiset().add(seq![x].to_multiset()));
                                assert(action_views(actions@).to_multiset().add(
                                    pending_ms(queue@, q0.len() as int),
                                ) =~= action_views(acts_pre).to_multiset().add(
                                    pending_ms(queue@, q0.len() as int),
                                ).insert(x));
                                assert(action_views(a0).to_multiset().add(
                                    entries_actions(
                                        basev,
                                        dv.entries@.take(j as int + 1),
                                    ).to_multiset(),
                                ) =~= action_views(a0).to_multiset().add(
                                    entries_actions(
                                        basev,
                                        dv.entries@.take(j as int),
                                    ).to_multiset(),
                                ).insert(x));
                                assert(action_views(actions@).to_multiset().add(
                                    pending_ms(queue@, q0.len() as int),
                                ) == action_views(a0).to_multiset().add(
                                    entries_actions(
                                        basev,
                                        dv.entries@.take(j as int + 1),
                                    ).to_multiset(),
                                ));
                            }
                        }
                    } else {
                        let cpath = child_path(&base, &entry.name);
                        errors.push(CopyError { path: cpath });
                        failed = true;
                        proof {
                            lemma_entries_unreadable_at(dv.entries@, j as int);
                            lemma_in_tree_unreadable(*src, dv);
                        }
                    }
                },
            }
            j = j + 1;
        }

        proof {
            if !failed {
                assert(j == d.entries@.len());
                assert(dv.entries@.take(j as int) =~= dv.entries@);
            } else {
                lemma_entries_size_take_le(dv.entries@, j as int);
            }
        }

        let ghost nid = node.id as int;
        let ghost pfin = pending_ids(queue@, h + 1);
        proof {
            // the node being processed is not pending: old pending ids
            // differ from it, new ones are larger
            if pfin.contains(nid) {
                let k = choose|k: int|
                    h + 1 <= k < queue@.len() && (#[trigger] queue@[k]).0.node.id as int == nid;
                if k < q0.len() {
                    assert(queue@[k].0.node.id != node.id);
                } else {
                    assert(tlen0 <= queue@[k].0.node.id);
                }
                assert(false);
            }
        }
        if !failed {
            let ghost t1 = tree@;
            DirNode::set_copied(&mut tree, node);
            let ghost t_mid = tree@;
            proof {
                crate::dir_tree::lemma_eval_node_wf(t1, nid);
                lemma_eval_node_frame(t1, nid);
                lemma_eval_node_inv(t1, nid);
                lemma_prune_membership(t1, t1[nid].kids);
                assert(tree_wf(t_mid));
                assert(rooted(t_mid));
                assert(pend_fresh(t_mid, pfin)) by {
                    assert forall|x: int|
                        #[trigger] pfin.contains(x) implies 0 <= x < t_mid.len()
                        && !t_mid[x].copied && !t_mid[x].failed && t_mid[x].kids.len() == 0 && (
                    forall|c: int| !child_of(t_mid, c, x)) by {
                        assert(x != nid);
                        assert(t_mid[x] == t1[x]);
                        assert forall|c: int| !child_of(t_mid, c, x) by {
                            if 0 <= c < t_mid.len() {
                                assert(t_mid[c].parent == t1[c].parent);
                                assert(!child_of(t1, c, x));
                            }
                        }
                    }
                }
                assert(uncopied_children_listed(t_mid)) by {
                    assert forall|c: int, p2: int|
                        #[trigger] child_of(t_mid, c, p2) && !t_mid[c].copied && 0 <= p2
                            < t_mid.len() implies t_mid[p2].kids.contains(c) by {
                        assert(child_of(t1, c, p2));
                        if c == nid {
                            assert(!t1[nid].copied);
                            assert(t1[p2].kids.contains(c));
                            assert(node_wf(t1, nid));
                            assert(p2 < nid);
                        } else {
                            assert(!t1[c].copied);
                            assert(t1[p2].kids.contains(c));
                            if p2 == nid && !t1[nid].failed {
                                assert(t_mid[nid].kids.contains(c));
                            }
                        }
                    }
                }
                assert(kids_point_to_children(t_mid)) by {
                    assert forall|p2: int, c: int|
                        0 <= p2 < t_mid.len() && #[trigger] t_mid[p2].kids.contains(c) implies
                        child_of(t_mid, c, p2) by {
                        if p2 == nid && !t1[nid].failed {
                            assert(t1[nid].kids.contains(c));
                            assert(child_of(t1, c, nid));
                        } else {
                            assert(t_mid[p2].kids == t1[p2].kids);
                            assert(t1[p2].kids.contains(c));
                            assert(child_of(t1, c, p2));
                        }
                    }
                }
                assert(eager_except(t_mid, pfin, nid)) by {
                    assert forall|p2: int|
                        0 <= p2 < t_mid.len() && !(#[trigger] t_mid[p2]).failed && !pfin.contains(
                            p2,
                        ) && kids_all_copied(t_mid, p2) && !(0 <= nid < t_mid.len()
                            && t_mid[nid].copied && t_mid[nid].parent == Some(p2)) implies
                        t_mid[p2].copied by {
                        if p2 == nid {
                            assert(!t1[nid].failed);
                            if t_mid[nid].kids.len() > 0 {
                                let c0 = t_mid[nid].kids[0];
                                assert(t_mid[nid].kids.contains(c0));
                                assert(t1[nid].kids.contains(c0) && !crate::dir_tree::node_copied(
                                    t1,
                                    c0,
                                ));
                                assert(child_of(t1, c0, nid));
                                assert(node_wf(t1, c0));
                                assert(c0 != nid);
                                assert(!t_mid[c0].copied);
                                assert(child_of(t_mid, c0, nid));
                                assert(t_mid[c0].copied);
                                assert(false);
                            }
                            assert(t_mid[nid].copied);
                        } else {
                            assert(t_mid[p2] == t1[p2]);
                            if !t1[p2].copied {
                                assert(kids_all_copied(t1, p2)) by {
                                    assert forall|c: int| #[trigger] child_of(t1, c, p2) implies
                                        t1[c].copied by {
                                        assert(child_of(t_mid, c, p2));
                                        assert(t_mid[c].copied);
                                        if c == nid {
                                            assert(t_mid[nid].copied && t_mid[nid].parent
                                                == Some(p2));
                                            assert(false);
                                        }
                                    }
                                }
                                assert(!pfin.insert(nid).contains(p2));
                                assert(t1[p2].copied);
                                assert(false);
                            }
                        }
                    }
                }
            }
            DirNode::try_lookup_continuously(&mut tree, node);
            proof {
                crate::dir_tree::lemma_climb_frame(t_mid, nid);
                lemma_climb_restores(t_mid, nid, pfin);
            }
        } else {
            let ghost t1 = tree@;
            DirNode::set_failed(&mut tree, node);
            let ghost t_f = tree@;
            proof {
                assert forall|i2: int|
                    0 <= i2 < tree@.len() implies crate::dir_tree::node_wf(tree@, i2) by {
                    assert(crate::dir_tree::node_wf(t1, i2));
                }
                assert(tree_inv(t_f)) by {
                    assert forall|i2: int|
                        0 <= i2 < t_f.len() && (#[trigger] t_f[i2]).copied implies t_f[i2].kids.len() == 0 && !t_f[i2].failed by {
                        if i2 == nid {
                            assert(!t1[nid].copied);
                            assert(false);
                        }
                    }
                }
                assert(rooted(t_f)) by {
                    assert(t_f[0].parent == t1[0].parent);
                    assert forall|j2: int|
                        1 <= j2 < t_f.len() implies (#[trigger] t_f[j2]).parent is Some by {
                        assert(t_f[j2].parent == t1[j2].parent);
                    }
                }
                assert(uncopied_children_listed(t_f)) by {
                    assert forall|c: int, p2: int|
                        #[trigger] child_of(t_f, c, p2) && !t_f[c].copied && 0 <= p2
                            < t_f.len() implies t_f[p2].kids.contains(c) by {
                        assert(child_of(t1, c, p2));
                        assert(!t1[c].copied);
                        assert(t1[p2].kids.contains(c));
                        assert(t_f[p2].kids == t1[p2].kids);
                    }
                }
                assert(kids_point_to_children(t_f)) by {
                    assert forall|p2: int, c: int|
                        0 <= p2 < t_f.len() && #[trigger] t_f[p2].kids.contains(c) implies
                        child_of(t_f, c, p2) by {
                        assert(t_f[p2].kids == t1[p2].kids);
                        assert(t1[p2].kids.contains(c));
                        assert(child_of(t1, c, p2));
                    }
                }
                assert(pend_fresh(t_f, pfin)) by {
                    assert forall|x: int|
                        #[trigger] pfin.contains(x) implies 0 <= x < t_f.len() && !t_f[x].copied
                        && !t_f[x].failed && t_f[x].kids.len() == 0 && (forall|c: int|
                        !child_of(t_f, c, x)) by {
                        assert(x != nid);
                        assert(t_f[x] == t1[x]);
                        assert forall|c: int| !child_of(t_f, c, x) by {
                            if 0 <= c < t_f.len() {
                                assert(t_f[c].parent == t1[c].parent);
                                assert(!child_of(t1, c, x));
                            }
                        }
                    }
                }
                assert(eager(t_f, pfin)) by {
                    assert forall|p2: int|
                        0 <= p2 < t_f.len() && !(#[trigger] t_f[p2]).failed && !pfin.contains(p2)
                            && kids_all_copied(t_f, p2) implies t_f[p2].copied by {
                        assert(p2 != nid);
                        assert(t_f[p2] == t1[p2]);
                        if !t1[p2].copied {
                            assert(kids_all_copied(t1, p2)) by {
                                assert forall|c: int| #[trigger] child_of(t1, c, p2) implies
                                    t1[c].copied by {
                                    assert(child_of(t_f, c, p2));
                                    assert(t_f[c].copied);
                                    assert(t_f[c].copied == t1[c].copied);
                                }
                            }
                            assert(!pfin.insert(nid).contains(p2));
                            assert(t1[p2].copied);
                            assert(false);
                        }
                    }
                }
                assert(t_f[nid].failed);
            }
        }

        head = head + 1;

        proof {
            broadcast use vstd::multiset::group_multiset_axioms;
            broadcast use vstd::seq_lib::group_to_multiset_ensures;

            let qe = queue@;
            lemma_pending_ms_prefix(q0, qe, h + 1);
            lemma_qsize_prefix(q0, qe, h + 1);
            if errors@.len() == 0 {
                assert(!failed && e0.len() == 0);
                let am = action_views(actions@).to_multiset();
                let ch = pending_ms(qe, q0.len() as int);
                assert(am.add(pending_ms(qe, h + 1)) =~= (am.add(ch)).add(pending_ms(q0, h + 1)));
                assert((action_views(a0).to_multiset().add(
                    dir_actions(basev, dv).to_multiset(),
                )).add(pending_ms(q0, h + 1)) =~= action_views(a0).to_multiset().add(
                    pending_ms(q0, h),
                ));
            }
            // the measure shrank: this directory left the queue, and its
            // children weigh strictly less than it
            assert(qsize(qe, h + 1) <= qsize(q0, h + 1) + entries_size(dv.entries@));
            assert(qsize(q0, h) == dir_size(dv) + qsize(q0, h + 1));
            // the completion invariants are stated over the new pending
            // set, which is exactly the one the climb was run against
            assert(pending_ids(queue@, head as int) =~= pfin) by {
                assert forall|x: int|
                    pending_ids(queue@, head as int).contains(x) implies pfin.contains(x) by {
                    let k = choose|k: int|
                        head as int <= k < queue@.len() && (
                        #[trigger] queue@[k]).0.node.id as int == x;
                    assert(h + 1 <= k);
                }
                assert forall|x: int|
                    pfin.contains(x) implies pending_ids(queue@, head as int).contains(x) by {
                    let k = choose|k: int|
                        h + 1 <= k < queue@.len() && (#[trigger] queue@[k]).0.node.id as int
                            == x;
                    assert(head as int <= k);
                }
            }
            // pending ids stay pairwise distinct
            assert forall|k1: int, k2: int|
                head as int <= k1 < k2 < queue@.len() implies (#[trigger] queue@[k1]).0.node.id
                != (#[trigger] queue@[k2]).0.node.id by {
                if k2 < q0.len() {
                    assert(queue@[k1] == q0[k1] && queue@[k2] == q0[k2]);
                } else if k1 < q0.len() {
                    assert(queue@[k1].0.node.id < tlen0);
                    assert(tlen0 <= queue@[k2].0.node.id);
                } else {
                    assert(queue@[k1].0.node.id < queue@[k2].0.node.id);
                }
            }
            // error and failure bookkeeping agree
            if errors@.len() == 0 {
                assert(!failed && e0.len() == 0);
                assert forall|jj: int|
                    0 <= jj < tree@.len() implies !(#[trigger] tree@[jj]).failed by {
                    if jj < tlen0 {
                    }
                }
            }
            if errors@.len() > 0 {
                if failed {
                    assert(tree@[nid].failed);
                } else {
                    assert(e0.len() > 0);
                    let jj = choose|jj: int|
                        0 <= jj < tree@.len() && (#[trigger] tree@[jj]).failed;
                    assert(tree@[jj].failed);
                }
            }
            // stall tracking survives: either an error is recorded or an
            // unreadable subtree is still pending
            if dir_has_unreadable(*src) && errors@.len() == 0 {
                assert(!failed);
                assert(e0.len() == 0);
                if dir_has_unreadable(dv) {
                    // the unreadable file is not among this directory's own
                    // files (none failed), so it sits below one of the
                    // children just queued
                    assert(entries_have_unreadable(dv.entries@));
                    let k0 = choose|k0: int|
                        q0.len() <= k0 < qe.len() && dir_has_unreadable(*(#[trigger] qe[k0]).1);
                    assert(head <= k0 < qe.len() && dir_has_unreadable(*(qe[k0]).1));
                } else {
                    // the unreadable subtree was pending elsewhere already
                    let k0 = choose|k0: int|
                        h <= k0 < q0.len() && dir_has_unreadable(*(#[trigger] q0[k0]).1);
                    assert(k0 != h);
                    assert(qe[k0] == q0[k0]);
                    assert(head <= k0 < qe.len() && dir_has_unreadable(*(qe[k0]).1));
                }
            }
        }
    }

    proof {
        broadcast use vstd::multiset::group_multiset_axioms;
        broadcast use vstd::seq_lib::group_to_multiset_ensures;

        if errors@.len() == 0 {
            assert(pending_ms(queue@, head as int) == Multiset::<ActionV>::empty());
            assert(action_views(actions@).to_multiset().add(Multiset::<ActionV>::empty())
                =~= action_views(actions@).to_multiset());
        }
        // nothing is pending any more
        let pend = pending_ids(queue@, head as int);
        assert forall|x: int| !(#[trigger] pend.contains(x)) by {
            if pend.contains(x) {
                let k = choose|k: int|
                    head as int <= k < queue@.len() && (#[trigger] queue@[k]).0.node.id as int
                        == x;
                assert(false);
            }
        }
        if errors@.len() == 0 {
            // no failure anywhere: eager propagation has copied everything
            lemma_all_copied(tree@, pend, 0);
            assert(tree@[0].copied);
        } else {
            // some node failed for good; were the root copied, that node
            // would be copied too — impossible
            assert(dir_has_unreadable(*src));
            let jj = choose|jj: int| 0 <= jj < tree@.len() && (#[trigger] tree@[jj]).failed;
            if tree@[0].copied {
                lemma_copied_descends(tree@, jj);
                assert(tree@[jj].copied);
                assert(false);
            }
            assert(!tree@[0].copied);
        }
    }

    QueueRun { actions, errors, tree, root }
}

} // verus!
