//! Completion tree: one node per destination directory, tracking whether
//! the subtree below it has been fully copied.
//!
//! Nodes live in an arena (`DirTree`) and are addressed by stable slot
//! indices (`SharedNodeRef`), with each node holding its parent's index;
//! a parent's `sub_nodes` list holds the indices of its still-pending
//! children. Marking progress is done by `set_copied` (evaluate one node:
//! drop the children that are already copied, and become copied exactly
//! when none remain) and `try_lookup_continuously` (climb from a copied
//! node towards the root, re-evaluating each ancestor until one is found
//! that is still incomplete). A node whose own work failed is flagged
//! `failed` and can never become copied, which keeps every ancestor —
//! including the root — incomplete forever.

use vstd::pervasive::VecAdditionalExecFns;
use vstd::prelude::*;

verus! {

/// Mathematical image of one node: everything is an index or a sequence.
#[verifier::ext_equal]
pub struct NodeV {
    pub path: Seq<Seq<char>>,
    pub parent: Option<int>,
    pub copied: bool,
    pub failed: bool,
    pub kids: Seq<int>,
}

/// Cheap handle to one arena slot of the completion tree.
#[derive(Clone, Copy, PartialEq, Eq, Structural, Debug)]
pub struct SharedNodeRef {
    pub id: usize,
}

/// One destination directory: its relative path (as components), the slot
/// of its parent, the completion and failure flags, and the slots of its
/// not-yet-copied children.
pub struct DirNode {
    pub path: Vec<String>,
    pub parent: Option<SharedNodeRef>,
    pub copied: bool,
    pub failed: bool,
    pub sub_nodes: Vec<SharedNodeRef>,
}

impl View for DirNode {
    type V = NodeV;

    open spec fn view(&self) -> NodeV {
        NodeV {
            path: self.path.deep_view(),
            parent: match self.parent {
                Some(r) => Some(r.id as int),
                None => None,
            },
            copied: self.copied,
            failed: self.failed,
            kids: self.sub_nodes@.map_values(|r: SharedNodeRef| r.id as int),
        }
    }
}

/// Arena holding every node of one copy operation; slot 0 is the root.
pub struct DirTree {
    pub nodes: Vec<DirNode>,
}

impl View for DirTree {
    type V = Seq<NodeV>;

    open spec fn view(&self) -> Seq<NodeV> {
        self.nodes@.map_values(|n: DirNode| n@)
    }
}

impl DirTree {
    /// Empty arena.
    pub fn new() -> (r: DirTree)
        ensures
            r@ == Seq::<NodeV>::empty(),
    {
        let r = DirTree { nodes: Vec::new() };
        proof {
            assert(r@ =~= Seq::<NodeV>::empty());
        }
        r
    }

    /// Runtime check of structural well-formedness, for callers that
    /// cannot establish it statically: parents below, children above.
    pub fn is_wf(&self) -> (r: bool)
        ensures
            r == tree_wf(self@),
    {
        let n = self.nodes.len();
        let mut i: usize = 0;
        while i < n
            invariant
                i <= n,
                n == self@.len(),
                forall|i2: int| 0 <= i2 < i ==> node_wf(self@, i2),
            decreases n - i,
        {
            match self.nodes[i].parent {
                Some(p) => {
                    if p.id >= i {
                        proof {
                            assert(!node_wf(self@, i as int));
                        }
                        return false;
                    }
                },
                None => {},
            }
            let mut j: usize = 0;
            let kn = self.nodes[i].sub_nodes.len();
            while j < kn
                invariant
                    j <= kn,
                    i < n == self@.len(),
                    kn == self@[i as int].kids.len(),
                    forall|j2: int|
                        0 <= j2 < j ==> i < #[trigger] self@[i as int].kids[j2] < n,
                decreases kn - j,
            {
                let kid = self.nodes[i].sub_nodes[j];
                proof {
                    assert(self@[i as int].kids[j as int] == kid.id as int);
                }
                if kid.id <= i || kid.id >= n {
                    proof {
                        assert(!(i < self@[i as int].kids[j as int] < n));
                        assert(!node_wf(self@, i as int));
                    }
                    return false;
                }
                j = j + 1;
            }
            proof {
                assert(node_wf(self@, i as int));
            }
            i = i + 1;
        }
        true
    }

    /// Register `child` as a pending child of `parent`.
    pub fn attach(&mut self, parent: SharedNodeRef, child: SharedNodeRef)
        requires
            valid_idx(old(self)@, parent.id as int),
        ensures
            final(self)@ == old(self)@.update(
                parent.id as int,
                (NodeV {
                    kids: old(self)@[parent.id as int].kids.push(child.id as int),
                    ..old(self)@[parent.id as int]
                }),
            ),
    {
        let i = parent.id;
        let mut tmp = DirNode {
            path: Vec::new(),
            parent: None,
            copied: false,
            failed: false,
            sub_nodes: Vec::new(),
        };
        self.nodes.set_and_swap(i, &mut tmp);
        tmp.add_sub_nodes(child);
        self.nodes.set_and_swap(i, &mut tmp);
        proof {
            assert(self@ =~~= old(self)@.update(
                i as int,
                (NodeV {
                    kids: old(self)@[i as int].kids.push(child.id as int),
                    ..old(self)@[i as int]
                }),
            ));
        }
    }
}

pub open spec fn valid_idx(t: Seq<NodeV>, i: int) -> bool {
    0 <= i < t.len()
}

/// A node index that exists and is marked copied.
pub open spec fn node_copied(t: Seq<NodeV>, k: int) -> bool {
    valid_idx(t, k) && t[k].copied
}

/// Structural well-formedness of one node: the parent sits strictly below
/// the node's own index, children strictly above it (parents are always
/// created before their children).
pub open spec fn node_wf(t: Seq<NodeV>, i: int) -> bool {
    &&& (t[i].parent matches Some(p) ==> 0 <= p < i)
    &&& (forall|j: int| 0 <= j < t[i].kids.len() ==> i < #[trigger] t[i].kids[j] < t.len())
}

pub open spec fn tree_wf(t: Seq<NodeV>) -> bool {
    forall|i: int| 0 <= i < t.len() ==> #[trigger] node_wf(t, i)
}

/// Full invariant: well-formed, and a copied node has no pending children
/// and is not failed.
pub open spec fn tree_inv(t: Seq<NodeV>) -> bool {
    &&& tree_wf(t)
    &&& forall|i: int|
        0 <= i < t.len() && (#[trigger] t[i]).copied ==> t[i].kids.len() == 0 && !t[i].failed
}

/// The child list after one evaluation: every already-copied child is
/// dropped, order of the rest preserved.
pub open spec fn prune(t: Seq<NodeV>, ks: Seq<int>) -> Seq<int>
    decreases ks.len(),
{
    if ks.len() == 0 {
        Seq::empty()
    } else {
        let rest = prune(t, ks.drop_last());
        if node_copied(t, ks.last()) {
            rest
        } else {
            rest.push(ks.last())
        }
    }
}

/// One evaluation step on node `i`: a failed node is left untouched;
/// otherwise its copied children are pruned and the node becomes copied
/// exactly when no child remains.
pub open spec fn eval_node(t: Seq<NodeV>, i: int) -> Seq<NodeV>
    recommends
        valid_idx(t, i),
{
    if t[i].failed {
        t
    } else {
        let kept = prune(t, t[i].kids);
        t.update(
            i,
            NodeV {
                path: t[i].path,
                parent: t[i].parent,
                copied: kept.len() == 0,
                failed: t[i].failed,
                kids: kept,
            },
        )
    }
}

/// The climb performed after a node was evaluated: while the current node
/// is copied and has a parent, evaluate the parent and continue from it.
pub open spec fn climb(t: Seq<NodeV>, i: int) -> Seq<NodeV>
    decreases i,
{
    if valid_idx(t, i) && t[i].copied {
        match t[i].parent {
            Some(p) => if 0 <= p < i {
                climb(eval_node(t, p), p)
            } else {
                t
            },
            None => t,
        }
    } else {
        t
    }
}

pub proof fn lemma_prune_push(t: Seq<NodeV>, ks: Seq<int>, e: int)
    ensures
        prune(t, ks.push(e)) == if node_copied(t, e) {
            prune(t, ks)
        } else {
            prune(t, ks).push(e)
        },
{
    assert(ks.push(e).drop_last() =~= ks);
    assert(ks.push(e).last() == e);
}

/// Membership in a pruned child list: exactly the not-yet-copied entries
/// of the original list survive.
pub proof fn lemma_prune_membership(t: Seq<NodeV>, ks: Seq<int>)
    ensures
        forall|x: int|
            prune(t, ks).contains(x) <==> ks.contains(x) && !node_copied(t, x),
    decreases ks.len(),
{
    broadcast use vstd::seq_lib::lemma_seq_contains_after_push;

    if ks.len() == 0 {
    } else {
        let ks0 = ks.drop_last();
        let last = ks.last();
        lemma_prune_membership(t, ks0);
        assert(ks =~= ks0.push(last));
        let rest = prune(t, ks0);
        if node_copied(t, last) {
            assert(prune(t, ks) == rest);
        } else {
            assert(prune(t, ks) == rest.push(last));
        }
    }
}

impl SharedNodeRef {
    /// Move a node into shared storage: append it to the arena and hand
    /// back the handle of its slot.
    pub fn new(tree: &mut DirTree, n: DirNode) -> (r: SharedNodeRef)
        ensures
            final(tree)@ == old(tree)@.push(n@),
            r.id == old(tree)@.len(),
    {
        let id = tree.nodes.len();
        let ghost n_v = n@;
        tree.nodes.push(n);
        proof {
            assert(tree@ =~= old(tree)@.push(n_v));
        }
        SharedNodeRef { id }
    }

    /// The raw slot index inside the arena.
    pub fn inner(&self) -> (r: usize)
        ensures
            r == self.id,
    {
        self.id
    }
}

impl DirNode {
    /// Fresh node for the directory at `path` (components relative to the
    /// destination root): no parent yet, no children, not copied.
    pub fn new(path: Vec<String>) -> (r: DirNode)
        ensures
            r@.path == path.deep_view(),
            r@.parent is None,
            !r@.copied,
            !r@.failed,
            r@.kids == Seq::<int>::empty(),
    {
        let r = DirNode {
            path,
            parent: None,
            copied: false,
            failed: false,
            sub_nodes: Vec::new(),
        };
        proof {
            assert(r@.kids =~= Seq::<int>::empty());
        }
        r
    }

    pub fn parent(&self) -> (r: Option<SharedNodeRef>)
        ensures
            r == self.parent,
    {
        self.parent
    }

    pub fn set_parent(&mut self, p: SharedNodeRef)
        ensures
            final(self)@ == (NodeV { parent: Some(p.id as int), ..old(self)@ }),
    {
        self.parent = Some(p);
    }

    /// Attach one more pending child to this node.
    pub fn add_sub_nodes(&mut self, node: SharedNodeRef)
        ensures
            final(self)@ == (NodeV { kids: old(self)@.kids.push(node.id as int), ..old(self)@ }),
    {
        self.sub_nodes.push(node);
        proof {
            assert(self@.kids =~= old(self)@.kids.push(node.id as int));
        }
    }

    pub fn is_copied(&self) -> (r: bool)
        ensures
            r == self@.copied,
    {
        self.copied
    }

    pub fn path(&self) -> (r: &Vec<String>)
        ensures
            r.deep_view() == self@.path,
    {
        &self.path
    }

    /// Record that the work item for this node hit an error: the node can
    /// never become copied, so the whole ancestor chain stays incomplete.
    pub fn set_failed(tree: &mut DirTree, node: SharedNodeRef)
        requires
            valid_idx(old(tree)@, node.id as int),
        ensures
            final(tree)@ == old(tree)@.update(
                node.id as int,
                (NodeV { failed: true, ..old(tree)@[node.id as int] }),
            ),
    {
        let i = node.id;
        let mut tmp = DirNode {
            path: Vec::new(),
            parent: None,
            copied: false,
            failed: false,
            sub_nodes: Vec::new(),
        };
        tree.nodes.set_and_swap(i, &mut tmp);
        tmp.failed = true;
        tree.nodes.set_and_swap(i, &mut tmp);
        proof {
            assert(tree@ =~~= old(tree)@.update(
                i as int,
                (NodeV { failed: true, ..old(tree)@[i as int] }),
            ));
        }
    }

    /// Evaluate this node: drop every child that is already copied and
    /// mark the node copied exactly when no pending child remains. A
    /// failed node is left untouched. This is the single step both the
    /// walker (when its own directory is done) and the upward climb use.
    pub fn set_copied(tree: &mut DirTree, node: SharedNodeRef)
        requires
            valid_idx(old(tree)@, node.id as int),
        ensures
            final(tree)@ == eval_node(old(tree)@, node.id as int),
    {
        let i = node.id;
        let ghost t0 = tree@;
        if tree.nodes[i].failed {
            return ;
        }
        let mut kept: Vec<SharedNodeRef> = Vec::new();
        let num = tree.nodes[i].sub_nodes.len();
        let mut j: usize = 0;
        while j < num
            invariant
                tree@ == t0,
                tree.nodes@.len() == t0.len(),
                valid_idx(t0, i as int),
                i < tree.nodes@.len(),
                !t0[i as int].failed,
                j <= num,
                num == t0[i as int].kids.len(),
                kept@.map_values(|r: SharedNodeRef| r.id as int) == prune(
                    t0,
                    t0[i as int].kids.take(j as int),
                ),
            decreases num - j,
        {
            let kid = tree.nodes[i].sub_nodes[j];
            let is_cop = kid.id < tree.nodes.len() && tree.nodes[kid.id].copied;
            proof {
                assert(t0[i as int].kids[j as int] == kid.id as int);
                assert(is_cop == node_copied(t0, kid.id as int));
                assert(t0[i as int].kids.take(j as int + 1) =~= t0[i as int].kids.take(
                    j as int,
                ).push(kid.id as int));
                lemma_prune_push(t0, t0[i as int].kids.take(j as int), kid.id as int);
            }
            let ghost kept_before = kept@;
            if !is_cop {
                kept.push(kid);
                proof {
                    assert(kept@.map_values(|r: SharedNodeRef| r.id as int) =~= kept_before
                        .map_values(|r: SharedNodeRef| r.id as int).push(kid.id as int));
                }
            }
            j = j + 1;
        }
        proof {
            assert(t0[i as int].kids.take(num as int) =~= t0[i as int].kids);
        }
        let is_empty = kept.len() == 0;
        let mut tmp = DirNode {
            path: Vec::new(),
            parent: None,
            copied: false,
            failed: false,
            sub_nodes: Vec::new(),
        };
        tree.nodes.set_and_swap(i, &mut tmp);
        tmp.sub_nodes = kept;
        tmp.copied = is_empty;
        tree.nodes.set_and_swap(i, &mut tmp);
        proof {
            assert(tree@ =~~= eval_node(t0, i as int));
        }
    }

    /// Climb from `start_node` towards the root: while the current node is
    /// copied and has a parent, evaluate the parent and continue from it,
    /// stopping at the first ancestor that stays incomplete or at the root.
    pub fn try_lookup_continuously(tree: &mut DirTree, start_node: SharedNodeRef)
        requires
            tree_wf(old(tree)@),
            valid_idx(old(tree)@, start_node.id as int),
        ensures
            final(tree)@ == climb(old(tree)@, start_node.id as int),
            tree_wf(final(tree)@),
    {
        let ghost t_orig = tree@;
        let ghost start = start_node.id as int;
        let mut cur: usize = start_node.id;
        loop
            invariant
                tree_wf(tree@),
                valid_idx(tree@, cur as int),
                cur < tree.nodes@.len(),
                climb(t_orig, start) == climb(tree@, cur as int),
            ensures
                tree@ == climb(t_orig, start),
                tree_wf(tree@),
            decreases cur,
        {
            if !tree.nodes[cur].copied {
                proof {
                    assert(climb(tree@, cur as int) == tree@);
                }
                break ;
            }
            let par = tree.nodes[cur].parent;
            match par {
                None => {
                    proof {
                        assert(climb(tree@, cur as int) == tree@);
                    }
                    break ;
                },
                Some(p) => {
                    proof {
                        assert(node_wf(tree@, cur as int));
                        assert(0 <= (p.id as int) && (p.id as int) < (cur as int));
                    }
                    let ghost t_before = tree@;
                    DirNode::set_copied(tree, p);
                    proof {
                        lemma_eval_node_wf(t_before, p.id as int);
                        assert(climb(t_before, cur as int) == climb(tree@, p.id as int));
                    }
                    cur = p.id;
                },
            }
        }
    }
}

/// Everything `eval_node` leaves alone: length, the other nodes, and the
/// evaluated node's path, parent and failure flag; its new child list
/// holds exactly the previously pending children (unless the node is
/// failed, in which case nothing changes at all).
pub proof fn lemma_eval_node_frame(t: Seq<NodeV>, i: int)
    requires
        valid_idx(t, i),
    ensures
        eval_node(t, i).len() == t.len(),
        forall|j: int| 0 <= j < t.len() && j != i ==> eval_node(t, i)[j] == t[j],
        eval_node(t, i)[i].path == t[i].path,
        eval_node(t, i)[i].parent == t[i].parent,
        eval_node(t, i)[i].failed == t[i].failed,
        t[i].failed ==> eval_node(t, i) == t,
        !t[i].failed ==> (forall|x: int|
            #![trigger eval_node(t, i)[i].kids.contains(x)]
            #![trigger t[i].kids.contains(x)]
            eval_node(t, i)[i].kids.contains(x) <==> t[i].kids.contains(x) && !node_copied(t, x)),
        !t[i].failed ==> (eval_node(t, i)[i].copied <==> eval_node(t, i)[i].kids.len() == 0),
{
    if !t[i].failed {
        lemma_prune_membership(t, t[i].kids);
    }
}

/// Evaluation preserves structural well-formedness.
pub proof fn lemma_eval_node_wf(t: Seq<NodeV>, i: int)
    requires
        tree_wf(t),
        valid_idx(t, i),
    ensures
        tree_wf(eval_node(t, i)),
{
    let t2 = eval_node(t, i);
    lemma_eval_node_frame(t, i);
    assert forall|j: int| 0 <= j < t2.len() implies node_wf(t2, j) by {
        assert(node_wf(t, j));
        if j == i && !t[i].failed {
            assert forall|j2: int| 0 <= j2 < t2[i].kids.len() implies i < #[trigger] t2[i].kids[j2]
                < t2.len() by {
                let x = t2[i].kids[j2];
                assert(t2[i].kids.contains(x));
                assert(t[i].kids.contains(x));
                let j3 = choose|j3: int| 0 <= j3 < t[i].kids.len() && t[i].kids[j3] == x;
                assert(i < t[i].kids[j3] < t.len());
            }
        }
    }
}

/// Evaluation preserves the full invariant: a node that just became
/// copied has an empty child list and is not failed.
pub proof fn lemma_eval_node_inv(t: Seq<NodeV>, i: int)
    requires
        tree_inv(t),
        valid_idx(t, i),
    ensures
        tree_inv(eval_node(t, i)),
{
    lemma_eval_node_wf(t, i);
    lemma_eval_node_frame(t, i);
}

/// The climb preserves the full invariant: however far completion
/// propagates, a copied node never keeps pending children and a failed
/// node never becomes copied.
pub proof fn lemma_climb_inv(t: Seq<NodeV>, i: int)
    requires
        tree_inv(t),
    ensures
        tree_inv(climb(t, i)),
    decreases i,
{
    if valid_idx(t, i) && t[i].copied {
        match t[i].parent {
            Some(p) => {
                if 0 <= p < i {
                    lemma_eval_node_inv(t, p);
                    lemma_climb_inv(eval_node(t, p), p);
                }
            },
            None => {},
        }
    }
}

/// Node `c` exists and names `p` as its parent.
pub open spec fn child_of(t: Seq<NodeV>, c: int, p: int) -> bool {
    0 <= c < t.len() && t[c].parent == Some(p)
}

/// Every child of `p` is copied.
pub open spec fn kids_all_copied(t: Seq<NodeV>, p: int) -> bool {
    forall|c: int| #[trigger] child_of(t, c, p) ==> t[c].copied
}

/// Slot 0 is the parentless root; every other node has a parent.
pub open spec fn rooted(t: Seq<NodeV>) -> bool {
    &&& t.len() >= 1
    &&& t[0].parent is None
    &&& forall|j: int| 1 <= j < t.len() ==> (#[trigger] t[j]).parent is Some
}

/// Every not-yet-copied child is recorded in its parent's child list.
pub open spec fn uncopied_children_listed(t: Seq<NodeV>) -> bool {
    forall|c: int, p: int|
        #[trigger] child_of(t, c, p) && !t[c].copied && 0 <= p < t.len() ==> t[p].kids.contains(c)
}

/// Child lists only ever point at genuine children: an entry of `p`'s
/// child list is a node whose parent is `p`.
pub open spec fn kids_point_to_children(t: Seq<NodeV>) -> bool {
    forall|p: int, c: int|
        0 <= p < t.len() && #[trigger] t[p].kids.contains(c) ==> child_of(t, c, p)
}

/// What holds of every node whose work item is still pending: it exists,
/// is neither copied nor failed, and has no children yet (children are
/// only attached while the node's own item is processed).
pub open spec fn pend_fresh(t: Seq<NodeV>, pend: Set<int>) -> bool {
    forall|p: int|
        #[trigger] pend.contains(p) ==> 0 <= p < t.len() && !t[p].copied && !t[p].failed
            && t[p].kids.len() == 0 && (forall|c: int| !child_of(t, c, p))
}

/// Eager propagation outside the pending set: a processed, unfailed node
/// whose children are all copied is itself copied — except possibly the
/// parent of `exc` while `exc` has just become copied and the climb has
/// not yet reached it.
pub open spec fn eager_except(t: Seq<NodeV>, pend: Set<int>, exc: int) -> bool {
    forall|p: int|
        0 <= p < t.len() && !(#[trigger] t[p]).failed && !pend.contains(p) && kids_all_copied(t, p)
            && !(0 <= exc < t.len() && t[exc].copied && t[exc].parent == Some(p)) ==> t[p].copied
}

/// Eager propagation outside the pending set, with no exception.
pub open spec fn eager(t: Seq<NodeV>, pend: Set<int>) -> bool {
    forall|p: int|
        0 <= p < t.len() && !(#[trigger] t[p]).failed && !pend.contains(p) && kids_all_copied(t, p)
            ==> t[p].copied
}

/// The heart of completion detection: the climb from a just-evaluated
/// node repairs the eager-propagation invariant. If everything holds
/// except possibly at the parent of `i`, then after the climb the whole
/// invariant holds again, and nothing else about the tree changed.
pub proof fn lemma_climb_restores(t: Seq<NodeV>, i: int, pend: Set<int>)
    requires
        tree_inv(t),
        rooted(t),
        valid_idx(t, i),
        !pend.contains(i),
        pend_fresh(t, pend),
        uncopied_children_listed(t),
        kids_point_to_children(t),
        eager_except(t, pend, i),
    ensures
        tree_inv(climb(t, i)),
        rooted(climb(t, i)),
        pend_fresh(climb(t, i), pend),
        uncopied_children_listed(climb(t, i)),
        kids_point_to_children(climb(t, i)),
        eager(climb(t, i), pend),
    decreases i,
{
    lemma_climb_frame(t, i);
    if !(valid_idx(t, i) && t[i].copied) {
        // the climb stops at once; with `i` not copied, the exception is
        // vacuous
        assert(eager(t, pend)) by {
            assert forall|p: int|
                0 <= p < t.len() && !(#[trigger] t[p]).failed && !pend.contains(p)
                    && kids_all_copied(t, p) implies t[p].copied by {
                assert(!(t[i].copied && t[i].parent == Some(p)));
            }
        }
    } else {
        match t[i].parent {
            None => {
                assert(i == 0);
                assert(eager(t, pend)) by {
                    assert forall|p: int|
                        0 <= p < t.len() && !(#[trigger] t[p]).failed && !pend.contains(p)
                            && kids_all_copied(t, p) implies t[p].copied by {
                        assert(!(t[i].copied && t[i].parent == Some(p)));
                    }
                }
            },
            Some(p) => {
                assert(node_wf(t, i));
                assert(0 <= p < i);
                let t2 = eval_node(t, p);
                lemma_eval_node_frame(t, p);
                lemma_eval_node_inv(t, p);
                lemma_prune_membership(t, t[p].kids);
                assert(climb(t, i) == climb(t2, p));

                // the parent of a node with a child is never pending
                assert(!pend.contains(p)) by {
                    assert(child_of(t, i, p));
                }
                // a copied node stays copied under evaluation
                assert(t[p].copied ==> t2[p].copied) by {
                    if t[p].copied && !t[p].failed {
                        assert(t[p].kids.len() == 0);
                        assert(t[p].kids =~= Seq::<int>::empty());
                        assert(prune(t, t[p].kids) =~= Seq::<int>::empty());
                    }
                }
                assert(rooted(t2));
                assert(pend_fresh(t2, pend)) by {
                    assert forall|q: int| #[trigger] pend.contains(q) implies 0 <= q < t2.len()
                        && !t2[q].copied && !t2[q].failed && t2[q].kids.len() == 0 && (forall|c: int|
                        !child_of(t2, c, q)) by {
                        assert(q != p);
                        assert(t2[q] == t[q]);
                        assert forall|c: int| !child_of(t2, c, q) by {
                            if 0 <= c < t.len() {
                                assert(t2[c].parent == t[c].parent);
                                assert(!child_of(t, c, q));
                            }
                        }
                    }
                }
                assert(uncopied_children_listed(t2)) by {
                    assert forall|c: int, p2: int|
                        #[trigger] child_of(t2, c, p2) && !t2[c].copied && 0 <= p2
                            < t2.len() implies t2[p2].kids.contains(c) by {
                        assert(child_of(t, c, p2));
                        if c == p {
                            assert(!t[p].copied);
                            assert(t[p2].kids.contains(c));
                            assert(node_wf(t, p));
                            assert(p2 < p);
                        } else {
                            assert(!t[c].copied);
                            assert(t[p2].kids.contains(c));
                            if p2 == p {
                                assert(t2[p].kids.contains(c));
                            }
                        }
                    }
                }
                assert(kids_point_to_children(t2)) by {
                    assert forall|p2: int, c: int|
                        0 <= p2 < t2.len() && #[trigger] t2[p2].kids.contains(c) implies child_of(
                        t2,
                        c,
                        p2,
                    ) by {
                        if p2 == p && !t[p].failed {
                            assert(t[p].kids.contains(c));
                            assert(child_of(t, c, p));
                        } else {
                            assert(t2[p2].kids == t[p2].kids);
                            assert(t[p2].kids.contains(c));
                            assert(child_of(t, c, p2));
                        }
                    }
                }
                assert(eager_except(t2, pend, p)) by {
                    assert forall|p2: int|
                        0 <= p2 < t2.len() && !(#[trigger] t2[p2]).failed && !pend.contains(p2)
                            && kids_all_copied(t2, p2) && !(0 <= p < t2.len() && t2[p].copied
                            && t2[p].parent == Some(p2)) implies t2[p2].copied by {
                        if p2 == p {
                            assert(!t[p].failed);
                            if t2[p].kids.len() > 0 {
                                let c0 = t2[p].kids[0];
                                assert(t2[p].kids.contains(c0));
                                assert(t[p].kids.contains(c0) && !node_copied(t, c0));
                                assert(child_of(t, c0, p));
                                assert(node_wf(t, c0));
                                assert(c0 != p);
                                assert(!t2[c0].copied);
                                assert(child_of(t2, c0, p));
                                assert(t2[c0].copied);
                                assert(false);
                            }
                            assert(t2[p].copied);
                        } else {
                            assert(t2[p2] == t[p2]);
                            if t[p2].copied {
                            } else {
                                // reduce to the eager property before the
                                // evaluation
                                assert(kids_all_copied(t, p2)) by {
                                    assert forall|c: int| #[trigger] child_of(t, c, p2) implies
                                        t[c].copied by {
                                        assert(child_of(t2, c, p2));
                                        assert(t2[c].copied);
                                        if c == p {
                                            assert(t2[p].copied && t2[p].parent == Some(p2));
                                            assert(false);
                                        }
                                    }
                                }
                                assert(!(t[i].copied && t[i].parent == Some(p2)) ==> t[p2].copied);
                                assert(t[i].parent == Some(p));
                                assert(p2 != p ==> !(t[i].parent == Some(p2)));
                                assert(t[p2].copied);
                            }
                        }
                    }
                }
                lemma_climb_restores(t2, p, pend);
            },
        }
    }
}

/// With nothing pending, nothing failed and eager propagation in force,
/// every node — the root in particular — is copied.
pub proof fn lemma_all_copied(t: Seq<NodeV>, pend: Set<int>, i: int)
    requires
        tree_wf(t),
        eager(t, pend),
        forall|j: int| 0 <= j < t.len() ==> !(#[trigger] t[j]).failed,
        forall|j: int| !(#[trigger] pend.contains(j)),
        0 <= i < t.len(),
    ensures
        t[i].copied,
    decreases t.len() - i,
{
    assert forall|c: int| #[trigger] child_of(t, c, i) implies t[c].copied by {
        assert(node_wf(t, c));
        assert(i < c < t.len());
        lemma_all_copied(t, pend, c);
    }
    assert(kids_all_copied(t, i));
    assert(!pend.contains(i));
}

/// If the root is copied, every node is: a copied node has an empty
/// child list, so each of its children must be copied too, all the way
/// down.
pub proof fn lemma_copied_descends(t: Seq<NodeV>, i: int)
    requires
        tree_inv(t),
        rooted(t),
        uncopied_children_listed(t),
        t[0].copied,
        0 <= i < t.len(),
    ensures
        t[i].copied,
    decreases i,
{
    if i == 0 {
    } else {
        assert(node_wf(t, i));
        let p = t[i].parent->0;
        assert(child_of(t, i, p));
        lemma_copied_descends(t, p);
        assert(t[p].kids.len() == 0);
        if !t[i].copied {
            assert(t[p].kids.contains(i));
            assert(false);
        }
    }
}

/// The climb never changes the number of nodes nor any node's path,
/// parent or failure flag, and never un-copies a node.
pub proof fn lemma_climb_frame(t: Seq<NodeV>, i: int)
    ensures
        climb(t, i).len() == t.len(),
        forall|j: int|
            0 <= j < t.len() ==> (#[trigger] climb(t, i)[j]).path == t[j].path && climb(t, i)[j].parent
                == t[j].parent && climb(t, i)[j].failed == t[j].failed,
    decreases i,
{
    if valid_idx(t, i) && t[i].copied {
        match t[i].parent {
            Some(p) => {
                if 0 <= p < i {
                    lemma_eval_node_frame(t, p);
                    lemma_climb_frame(eval_node(t, p), p);
                }
            },
            None => {},
        }
    }
}

/// Evaluating an already-complete node is a no-op: `copied` stays true
/// and the children mapping is not altered — so a second evaluation (or
/// any number of them) changes nothing either.
pub proof fn lemma_evaluate_idempotent(t: Seq<NodeV>, i: int)
    requires
        tree_inv(t),
        valid_idx(t, i),
        t[i].copied,
    ensures
        eval_node(t, i) == t,
        eval_node(eval_node(t, i), i) == t,
{
    assert(t[i].kids.len() == 0);
    assert(t[i].kids =~= Seq::<int>::empty());
    assert(prune(t, t[i].kids) =~= Seq::<int>::empty());
    assert(eval_node(t, i)[i] =~= t[i]);
    assert(eval_node(t, i) =~= t);
}

/// A node with a not-yet-copied child never reports completion: after
/// evaluating it, `copied` is false and the pending child is still in its
/// children mapping.
pub proof fn lemma_no_premature_completion(t: Seq<NodeV>, i: int, k: int)
    requires
        tree_inv(t),
        valid_idx(t, i),
        t[i].kids.contains(k),
        !node_copied(t, k),
    ensures
        !eval_node(t, i)[i].copied,
        eval_node(t, i)[i].kids.contains(k),
{
    lemma_eval_node_frame(t, i);
    if t[i].failed {
    } else {
        assert(eval_node(t, i)[i].kids.contains(k));
    }
}

} // verus!
