// Construction and pruning, exercised on concrete trees.

use policy_tree::node::{Node, NodeType};

fn leaf(reward: i64, action: usize) -> Node {
    Node::new_leaf(reward, action)
}

#[test]
fn leaf_fields() {
    let l = leaf(42, 3);
    assert_eq!(l.node_type(), NodeType::Leaf);
    assert_eq!(l.reward_value(), 42);
    assert_eq!(l.action_value(), 3);
}

#[test]
fn branch_sums_rewards() {
    let b = Node::new_branch(leaf(10, 0), leaf(-3, 1), 2, 99);
    assert_eq!(b.node_type(), NodeType::Branch);
    assert_eq!(b.reward_value(), 7);
    assert_eq!(b.axis_value(), 2);
    assert_eq!(b.cut_point_value(), 99);
    assert_eq!(b.left_child().reward_value(), 10);
    assert_eq!(b.right_child().reward_value(), -3);
}

#[test]
fn prune_leaf_is_noop() {
    let mut l = leaf(5, 0);
    l.prune();
    assert_eq!(l, leaf(5, 0));
}

#[test]
fn sibling_leaves_same_action_merge() {
    // Two leaves recommending the same action collapse into one leaf whose
    // reward is the sum.
    let mut t = Node::new_branch(leaf(1, 0), leaf(2, 0), 0, 5);
    t.prune();
    assert_eq!(t, leaf(3, 0));
}

#[test]
fn sibling_leaves_different_action_stay() {
    let mut t = Node::new_branch(leaf(1, 0), leaf(2, 1), 0, 5);
    t.prune();
    assert_eq!(t, Node::new_branch(leaf(1, 0), leaf(2, 1), 0, 5));
}

#[test]
fn redundant_left_cut_collapses() {
    // The left child repeats the root's (axis, cut_point): it is replaced by
    // its own left child, and its right subtree drops out of the tree.
    let inner = Node::new_branch(leaf(1, 0), leaf(2, 1), 0, 7);
    let other = Node::new_branch(leaf(3, 2), leaf(4, 3), 1, 9);
    let mut t = Node::new_branch(inner, other, 0, 7);
    t.prune();
    assert_eq!(t.node_type(), NodeType::Branch);
    // The stored reward is not recomputed after the splice.
    assert_eq!(t.reward_value(), 10);
    assert_eq!(*t.left_child(), leaf(1, 0));
    assert_eq!(*t.right_child(), Node::new_branch(leaf(3, 2), leaf(4, 3), 1, 9));
}

#[test]
fn redundant_right_cut_collapses() {
    // Only the right child repeats the root's (axis, cut_point): it is
    // replaced by its own right child; the left side is left untouched.
    let other = Node::new_branch(leaf(1, 0), leaf(2, 1), 1, 7);
    let inner = Node::new_branch(leaf(3, 2), leaf(4, 3), 0, 7);
    let mut t = Node::new_branch(other, inner, 0, 7);
    t.prune();
    assert_eq!(t.node_type(), NodeType::Branch);
    assert_eq!(*t.left_child(), Node::new_branch(leaf(1, 0), leaf(2, 1), 1, 7));
    assert_eq!(*t.right_child(), leaf(4, 3));
}

#[test]
fn children_merging_to_same_action_collapse() {
    // Both children are branches on other axes; each merges into a leaf, the
    // two leaves agree on the action, and the root collapses too.
    let l = Node::new_branch(leaf(1, 0), leaf(2, 0), 0, 1);
    let r = Node::new_branch(leaf(3, 0), leaf(4, 0), 1, 2);
    let mut t = Node::new_branch(l, r, 2, 3);
    t.prune();
    assert_eq!(t, leaf(10, 0));
}

#[test]
fn branch_leaf_pair_recurses_into_branch_only() {
    // A (branch, leaf) pair recurses into the branch side only: even though
    // the left side merges into a leaf agreeing with the right leaf's action,
    // the single pass never re-examines the pair, so the root stays a branch.
    let l = Node::new_branch(leaf(1, 0), leaf(2, 0), 0, 1);
    let mut t = Node::new_branch(l, leaf(5, 0), 1, 2);
    t.prune();
    assert_eq!(t.node_type(), NodeType::Branch);
    assert_eq!(*t.left_child(), leaf(3, 0));
    assert_eq!(*t.right_child(), leaf(5, 0));
}

#[test]
fn leaf_branch_pair_recurses_into_branch_only() {
    let r = Node::new_branch(leaf(1, 1), leaf(2, 1), 0, 1);
    let mut t = Node::new_branch(leaf(5, 1), r, 1, 2);
    t.prune();
    assert_eq!(t.node_type(), NodeType::Branch);
    assert_eq!(*t.left_child(), leaf(5, 1));
    assert_eq!(*t.right_child(), leaf(3, 1));
}

#[test]
fn same_axis_different_cut_recurses() {
    // The left child shares the root's axis but not its cut point: no splice;
    // both children are rewritten and may merge.
    let l = Node::new_branch(leaf(1, 4), leaf(2, 4), 0, 9);
    let r = Node::new_branch(leaf(3, 4), leaf(4, 4), 1, 2);
    let mut t = Node::new_branch(l, r, 0, 7);
    t.prune();
    assert_eq!(t, leaf(10, 4));
}

#[test]
fn prune_is_idempotent_on_simplified_tree() {
    // A fully simplified tree is a fixed point of the pass.
    let build = || {
        let l = Node::new_branch(leaf(1, 0), leaf(2, 1), 0, 1);
        Node::new_branch(l, leaf(3, 2), 1, 2)
    };
    let mut once = build();
    once.prune();
    let mut twice = build();
    twice.prune();
    twice.prune();
    assert_eq!(once, twice);
    assert_eq!(once, build());
}

#[test]
fn chained_identical_cuts_need_more_than_one_pass() {
    // Three chained cuts on the same (axis, cut_point): one pass removes only
    // one level, since a splice is not re-simplified.
    let innermost = Node::new_branch(leaf(1, 0), leaf(2, 1), 0, 5);
    let middle = Node::new_branch(innermost, leaf(3, 2), 0, 5);
    let sibling = Node::new_branch(leaf(4, 3), leaf(5, 4), 1, 6);
    let mut t = Node::new_branch(middle, sibling, 0, 5);
    t.prune();
    // The middle branch was spliced out; the innermost branch, which still
    // repeats the root's cut, remains after the single pass.
    assert_eq!(
        *t.left_child(),
        Node::new_branch(leaf(1, 0), leaf(2, 1), 0, 5)
    );
}

#[test]
fn reward_sum_at_the_integer_boundary() {
    let t = Node::new_branch(leaf(i64::MAX - 1, 0), leaf(1, 1), 0, 0);
    assert_eq!(t.reward_value(), i64::MAX);
    let u = Node::new_branch(leaf(i64::MIN + 1, 0), leaf(-1, 1), 0, 0);
    assert_eq!(u.reward_value(), i64::MIN);
}

#[test]
fn same_cut_point_different_axis_is_not_redundant() {
    // Sharing only the threshold, not the axis, is no redundancy: the pass
    // recurses instead of splicing.
    let l = Node::new_branch(leaf(1, 0), leaf(2, 1), 1, 7);
    let r = Node::new_branch(leaf(3, 2), leaf(4, 3), 2, 7);
    let mut t = Node::new_branch(l, r, 0, 7);
    t.prune();
    assert_eq!(*t.left_child(), Node::new_branch(leaf(1, 0), leaf(2, 1), 1, 7));
    assert_eq!(*t.right_child(), Node::new_branch(leaf(3, 2), leaf(4, 3), 2, 7));
}

#[test]
fn deep_chain_merges_bottom_up() {
    // Merges cascade upward within one pass when every level qualifies.
    let bottom = Node::new_branch(leaf(1, 5), leaf(2, 5), 0, 1);
    let mid = Node::new_branch(bottom, Node::new_branch(leaf(3, 5), leaf(4, 5), 1, 2), 2, 3);
    let top_sibling = Node::new_branch(leaf(5, 5), leaf(6, 5), 3, 4);
    let mut t = Node::new_branch(mid, top_sibling, 4, 5);
    t.prune();
    assert_eq!(t, leaf(21, 5));
}

#[test]
fn negative_rewards_sum() {
    let mut t = Node::new_branch(leaf(-7, 2), leaf(3, 2), 4, -10);
    assert_eq!(t.reward_value(), -4);
    t.prune();
    assert_eq!(t, leaf(-4, 2));
}
