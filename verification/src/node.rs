//! The tree node: a strict binary tree whose leaves recommend actions and
//! whose branches split on an axis/threshold pair.
//!
//! Rewards and thresholds are totally ordered scalar values; the library
//! stores them as `i64` so that equality and ordering over trees are
//! well-defined and reward sums can be stated exactly.  A caller working in
//! another scale (for instance fixed-point fractions) converts on the way in
//! and out.

use vstd::prelude::*;

verus! {

/// The two shapes a node can take.
#[derive(Debug, Clone, Copy, PartialEq, Eq, Structural)]
pub enum NodeType {
    Leaf,
    Branch,
}

/// A node of the policy tree.
///
/// A `Leaf` recommends a 0-based `action` and carries a cumulative `reward`.
/// A `Branch` splits on the 0-based feature `axis` at threshold `cut_point`,
/// owns exactly two children, and carries `reward` equal to the sum of its
/// children's rewards (until pruning discards a subtree, see [`Node::prune`]).
#[derive(Debug, PartialEq, Eq)]
pub enum Node {
    Leaf { reward: i64, action: usize },
    Branch { reward: i64, axis: usize, cut_point: i64, left: Box<Node>, right: Box<Node> },
}

impl Node {
    /// The cumulative reward stored at the root of this (sub)tree.
    pub open spec fn reward(self) -> i64 {
        match self {
            Node::Leaf { reward, .. } => reward,
            Node::Branch { reward, .. } => reward,
        }
    }

    /// The recommended action of a leaf.
    pub open spec fn action(self) -> usize
        recommends
            self is Leaf,
    {
        match self {
            Node::Leaf { action, .. } => action,
            Node::Branch { .. } => arbitrary(),
        }
    }

    /// The split axis of a branch.
    pub open spec fn axis(self) -> usize
        recommends
            self is Branch,
    {
        match self {
            Node::Leaf { .. } => arbitrary(),
            Node::Branch { axis, .. } => axis,
        }
    }

    /// The split threshold of a branch.
    pub open spec fn cut_point(self) -> i64
        recommends
            self is Branch,
    {
        match self {
            Node::Leaf { .. } => arbitrary(),
            Node::Branch { cut_point, .. } => cut_point,
        }
    }

    /// The left child of a branch.
    pub open spec fn left(self) -> Node
        recommends
            self is Branch,
    {
        match self {
            Node::Leaf { .. } => arbitrary(),
            Node::Branch { left, .. } => *left,
        }
    }

    /// The right child of a branch.
    pub open spec fn right(self) -> Node
        recommends
            self is Branch,
    {
        match self {
            Node::Leaf { .. } => arbitrary(),
            Node::Branch { right, .. } => *right,
        }
    }

    /// Number of nodes in the (sub)tree.
    pub open spec fn count(self) -> nat
        decreases self,
    {
        match self {
            Node::Leaf { .. } => 1,
            Node::Branch { left, right, .. } => 1 + left.count() + right.count(),
        }
    }

    /// The reward invariant: every branch's reward is exactly the sum of its
    /// children's rewards, recursively.  Trees built through [`Node::new_leaf`]
    /// and [`Node::new_branch`] satisfy it.
    pub open spec fn wf(self) -> bool
        decreases self,
    {
        match self {
            Node::Leaf { .. } => true,
            Node::Branch { reward, left, right, .. } => {
                &&& reward as int == left.reward() as int + right.reward() as int
                &&& left.wf()
                &&& right.wf()
            },
        }
    }

    /// Actions and axes leave room for the 1-based shift that flattening
    /// applies, so that every record field fits in a `usize`.
    pub open spec fn bounded(self) -> bool
        decreases self,
    {
        match self {
            Node::Leaf { action, .. } => action < usize::MAX,
            Node::Branch { axis, left, right, .. } => {
                &&& axis < usize::MAX
                &&& left.bounded()
                &&& right.bounded()
            },
        }
    }

    /// The single simplification pass, as a mathematical function on trees.
    ///
    /// Case analysis on a branch and its two children:
    /// leaves are left alone; a (branch, leaf) or (leaf, branch) pair recurses
    /// into the branch side only; with two branch children, a child repeating
    /// this node's exact `(axis, cut_point)` is redundant and is replaced by
    /// its own same-side child (one level removed, no further rewriting),
    /// otherwise both children are rewritten recursively and, if both come
    /// back as leaves recommending the same action, the branch collapses into
    /// a leaf holding their summed reward; two leaf children collapse the same
    /// way.  The pass runs once and is not iterated to a fixed point.
    pub open spec fn prune_spec(self) -> Node
        decreases self,
    {
        match self {
            Node::Leaf { .. } => self,
            Node::Branch { reward, axis, cut_point, left, right } => {
                let l = *left;
                let r = *right;
                if l is Branch && r is Leaf {
                    Node::Branch { reward, axis, cut_point, left: Box::new(l.prune_spec()), right }
                } else if l is Leaf && r is Branch {
                    Node::Branch { reward, axis, cut_point, left, right: Box::new(r.prune_spec()) }
                } else if l is Branch && r is Branch {
                    if l.axis() == axis && l.cut_point() == cut_point {
                        Node::Branch { reward, axis, cut_point, left: Box::new(l.left()), right }
                    } else if r.axis() == axis && r.cut_point() == cut_point {
                        Node::Branch { reward, axis, cut_point, left, right: Box::new(r.right()) }
                    } else {
                        let l2 = l.prune_spec();
                        let r2 = r.prune_spec();
                        if l2 is Leaf && r2 is Leaf && l2.action() == r2.action() {
                            Node::Leaf {
                                reward: (l2.reward() as int + r2.reward() as int) as i64,
                                action: l2.action(),
                            }
                        } else {
                            Node::Branch {
                                reward,
                                axis,
                                cut_point,
                                left: Box::new(l2),
                                right: Box::new(r2),
                            }
                        }
                    }
                } else {
                    if l.action() == r.action() {
                        Node::Leaf {
                            reward: (l.reward() as int + r.reward() as int) as i64,
                            action: l.action(),
                        }
                    } else {
                        self
                    }
                }
            },
        }
    }

    /// A tree with no redundant structure left for the simplification pass:
    /// no branch has a branch child repeating its own `(axis, cut_point)`,
    /// and no branch has two leaf children recommending the same action.
    pub open spec fn fully_simplified(self) -> bool
        decreases self,
    {
        match self {
            Node::Leaf { .. } => true,
            Node::Branch { axis, cut_point, left, right, .. } => {
                let l = *left;
                let r = *right;
                &&& l.fully_simplified()
                &&& r.fully_simplified()
                &&& !(l is Branch && l.axis() == axis && l.cut_point() == cut_point)
                &&& !(r is Branch && r.axis() == axis && r.cut_point() == cut_point)
                &&& !(l is Leaf && r is Leaf && l.action() == r.action())
            },
        }
    }

    /// Pruning a tree that is already fully simplified leaves it unchanged,
    /// structurally and in every reward value.
    pub proof fn lemma_prune_fixed_point(self)
        requires
            self.fully_simplified(),
        ensures
            self.prune_spec() == self,
        decreases self,
    {
        match self {
            Node::Leaf { .. } => {},
            Node::Branch { left, right, .. } => {
                let l = *left;
                let r = *right;
                if l is Branch && r is Leaf {
                    l.lemma_prune_fixed_point();
                } else if l is Leaf && r is Branch {
                    r.lemma_prune_fixed_point();
                } else if l is Branch && r is Branch {
                    l.lemma_prune_fixed_point();
                    r.lemma_prune_fixed_point();
                } else {
                }
            },
        }
    }

    /// Merging two sibling leaves: a branch whose children are leaves with
    /// the same action collapses into one leaf carrying that action and the
    /// sum of the two rewards.
    pub proof fn lemma_sibling_leaf_merge(self)
        requires
            self is Branch,
            self.left() is Leaf,
            self.right() is Leaf,
            self.left().action() == self.right().action(),
        ensures
            self.prune_spec() == (Node::Leaf {
                reward: (self.left().reward() as int + self.right().reward() as int) as i64,
                action: self.left().action(),
            }),
    {
    }

    /// Collapsing a redundant cut: a branch whose left child is a branch with
    /// the same `(axis, cut_point)` has that child replaced by the child's own
    /// left child, one level removed; the child's right subtree drops out of
    /// the tree entirely, as the node count shows.
    pub proof fn lemma_redundant_cut_collapse(self)
        requires
            self is Branch,
            self.left() is Branch,
            self.right() is Branch,
            self.left().axis() == self.axis(),
            self.left().cut_point() == self.cut_point(),
        ensures
            self.prune_spec() == (Node::Branch {
                reward: self.reward(),
                axis: self.axis(),
                cut_point: self.cut_point(),
                left: Box::new(self.left().left()),
                right: Box::new(self.right()),
            }),
            self.prune_spec().count() as int == self.count() as int
                - self.left().right().count() as int - 1,
    {
        let l = self.left();
        let r = self.right();
        assert(self.count() == 1 + l.count() + r.count());
        assert(l.count() == 1 + l.left().count() + l.right().count());
        assert(self.prune_spec().count() == 1 + l.left().count() + r.count());
    }

    /// Pruning never grows the tree.
    pub proof fn lemma_prune_count(self)
        ensures
            self.prune_spec().count() <= self.count(),
        decreases self,
    {
        match self {
            Node::Leaf { .. } => {},
            Node::Branch { left, right, .. } => {
                let l = *left;
                let r = *right;
                l.lemma_prune_count();
                r.lemma_prune_count();
            },
        }
    }

    /// Pruning keeps actions and axes within the bound that flattening needs.
    pub proof fn lemma_prune_bounded(self)
        requires
            self.bounded(),
        ensures
            self.prune_spec().bounded(),
        decreases self,
    {
        match self {
            Node::Leaf { .. } => {},
            Node::Branch { axis, cut_point, left, right, .. } => {
                let l = *left;
                let r = *right;
                l.lemma_prune_bounded();
                r.lemma_prune_bounded();
                if l is Branch && r is Branch {
                    if l.axis() == axis && l.cut_point() == cut_point {
                        assert(l.left().bounded()) by {
                            reveal_with_fuel(Node::bounded, 2);
                        }
                    } else if r.axis() == axis && r.cut_point() == cut_point {
                        assert(r.right().bounded()) by {
                            reveal_with_fuel(Node::bounded, 2);
                        }
                    } else {
                        let l2 = l.prune_spec();
                        let r2 = r.prune_spec();
                        if l2 is Leaf && r2 is Leaf && l2.action() == r2.action() {
                            assert(l2.action() < usize::MAX);
                        }
                    }
                }
            },
        }
    }

    /// Builds a leaf recommending `action` with cumulative reward `reward`.
    pub fn new_leaf(reward: i64, action: usize) -> (n: Node)
        ensures
            n == (Node::Leaf { reward, action }),
            n.wf(),
    {
        Node::Leaf { reward, action }
    }

    /// Builds a branch over the two children, taking ownership of both and
    /// setting its reward to the sum of theirs.  `axis` and `cut_point` are
    /// stored as given; bounding `axis` against any feature count is the
    /// caller's concern.
    pub fn new_branch(left: Node, right: Node, axis: usize, cut_point: i64) -> (n: Node)
        requires
            i64::MIN <= left.reward() as int + right.reward() as int <= i64::MAX,
        ensures
            n == (Node::Branch {
                reward: (left.reward() as int + right.reward() as int) as i64,
                axis,
                cut_point,
                left: Box::new(left),
                right: Box::new(right),
            }),
            left.wf() && right.wf() ==> n.wf(),
    {
        let reward = left.reward_value() + right.reward_value();
        Node::Branch { reward, axis, cut_point, left: Box::new(left), right: Box::new(right) }
    }

    /// Returns which shape this node has.
    pub fn node_type(&self) -> (t: NodeType)
        ensures
            t == NodeType::Leaf <==> self is Leaf,
            t == NodeType::Branch <==> self is Branch,
    {
        match self {
            Node::Leaf { .. } => NodeType::Leaf,
            Node::Branch { .. } => NodeType::Branch,
        }
    }

    /// The stored cumulative reward.
    pub fn reward_value(&self) -> (r: i64)
        ensures
            r == self.reward(),
    {
        match self {
            Node::Leaf { reward, .. } => *reward,
            Node::Branch { reward, .. } => *reward,
        }
    }

    /// The recommended action of a leaf.
    pub fn action_value(&self) -> (a: usize)
        requires
            self is Leaf,
        ensures
            a == self.action(),
    {
        match self {
            Node::Leaf { action, .. } => *action,
            Node::Branch { .. } => vstd::pervasive::unreached(),
        }
    }

    /// The split axis of a branch.
    pub fn axis_value(&self) -> (a: usize)
        requires
            self is Branch,
        ensures
            a == self.axis(),
    {
        match self {
            Node::Leaf { .. } => vstd::pervasive::unreached(),
            Node::Branch { axis, .. } => *axis,
        }
    }

    /// The split threshold of a branch.
    pub fn cut_point_value(&self) -> (c: i64)
        requires
            self is Branch,
        ensures
            c == self.cut_point(),
    {
        match self {
            Node::Leaf { .. } => vstd::pervasive::unreached(),
            Node::Branch { cut_point, .. } => *cut_point,
        }
    }

    /// Borrows the left child of a branch.
    pub fn left_child(&self) -> (l: &Node)
        requires
            self is Branch,
        ensures
            *l == self.left(),
    {
        match self {
            Node::Leaf { .. } => vstd::pervasive::unreached(),
            Node::Branch { left, .. } => &**left,
        }
    }

    /// Borrows the right child of a branch.
    pub fn right_child(&self) -> (r: &Node)
        requires
            self is Branch,
        ensures
            *r == self.right(),
    {
        match self {
            Node::Leaf { .. } => vstd::pervasive::unreached(),
            Node::Branch { right, .. } => &**right,
        }
    }

    /// Hands out the left child of a branch, dropping the rest of the node.
    fn into_left(self) -> (l: Node)
        requires
            self is Branch,
        ensures
            l == self.left(),
    {
        match self {
            Node::Leaf { .. } => vstd::pervasive::unreached(),
            Node::Branch { left, .. } => *left,
        }
    }

    /// Hands out the right child of a branch, dropping the rest of the node.
    fn into_right(self) -> (r: Node)
        requires
            self is Branch,
        ensures
            r == self.right(),
    {
        match self {
            Node::Leaf { .. } => vstd::pervasive::unreached(),
            Node::Branch { right, .. } => *right,
        }
    }

    /// The simplification pass on an owned tree: returns the rewritten tree.
    fn prune_tree(self) -> (out: Node)
        requires
            self.wf(),
        ensures
            out == self.prune_spec(),
            out.reward() == self.reward(),
        decreases self,
    {
        match self {
            Node::Leaf { reward, action } => Node::Leaf { reward, action },
            Node::Branch { reward, axis, cut_point, left, right } => {
                let l = *left;
                let r = *right;
                let l_leaf = l.node_type() == NodeType::Leaf;
                let r_leaf = r.node_type() == NodeType::Leaf;
                if !l_leaf && r_leaf {
                    let l2 = l.prune_tree();
                    Node::Branch { reward, axis, cut_point, left: Box::new(l2), right: Box::new(r) }
                } else if l_leaf && !r_leaf {
                    let r2 = r.prune_tree();
                    Node::Branch { reward, axis, cut_point, left: Box::new(l), right: Box::new(r2) }
                } else if !l_leaf && !r_leaf {
                    if l.axis_value() == axis && l.cut_point_value() == cut_point {
                        let ll = l.into_left();
                        Node::Branch {
                            reward,
                            axis,
                            cut_point,
                            left: Box::new(ll),
                            right: Box::new(r),
                        }
                    } else if r.axis_value() == axis && r.cut_point_value() == cut_point {
                        let rr = r.into_right();
                        Node::Branch {
                            reward,
                            axis,
                            cut_point,
                            left: Box::new(l),
                            right: Box::new(rr),
                        }
                    } else {
                        let l2 = l.prune_tree();
                        let r2 = r.prune_tree();
                        let l2_leaf = l2.node_type() == NodeType::Leaf;
                        let r2_leaf = r2.node_type() == NodeType::Leaf;
                        if l2_leaf && r2_leaf && l2.action_value() == r2.action_value() {
                            let merged = l2.reward_value() + r2.reward_value();
                            Node::Leaf { reward: merged, action: l2.action_value() }
                        } else {
                            Node::Branch {
                                reward,
                                axis,
                                cut_point,
                                left: Box::new(l2),
                                right: Box::new(r2),
                            }
                        }
                    }
                } else {
                    if l.action_value() == r.action_value() {
                        let merged = l.reward_value() + r.reward_value();
                        Node::Leaf { reward: merged, action: l.action_value() }
                    } else {
                        Node::Branch {
                            reward,
                            axis,
                            cut_point,
                            left: Box::new(l),
                            right: Box::new(r),
                        }
                    }
                }
            },
        }
    }

    /// Rewrites the tree in place through the single simplification pass.
    ///
    /// The rewrite is exactly [`Node::prune_spec`]; the reward stored at the
    /// root is never changed by it.
    pub fn prune(&mut self)
        requires
            old(self).wf(),
        ensures
            *final(self) == old(self).prune_spec(),
            final(self).reward() == old(self).reward(),
    {
        let mut tmp = Node::Leaf { reward: 0, action: 0 };
        core::mem::swap(self, &mut tmp);
        let mut out = tmp.prune_tree();
        core::mem::swap(self, &mut out);
    }
}

} // verus!
