// Flattening into the 1-indexed array-of-records encoding.

use policy_tree::node::Node;
use policy_tree::table::Record;

fn leaf(reward: i64, action: usize) -> Node {
    Node::new_leaf(reward, action)
}

#[test]
fn single_leaf_table() {
    let t = leaf(3, 0);
    assert!(t.table_ready());
    assert_eq!(t.to_table(), vec![Record::Leaf { action: 1 }]);
}

#[test]
fn merged_tree_flattens_to_one_record() {
    // Two leaves with the same action merge under pruning; the flattened
    // result is a single 1-based leaf record.
    let mut t = Node::new_branch(leaf(1, 0), leaf(2, 0), 0, 5);
    t.prune();
    assert_eq!(t.to_table(), vec![Record::Leaf { action: 1 }]);
}

#[test]
fn unmerged_tree_flattens_to_three_records() {
    // Actions differ, so pruning leaves the branch; the table holds the
    // branch record first, then its two children at slots 2 and 3.
    let mut t = Node::new_branch(leaf(1, 0), leaf(2, 1), 0, 5);
    t.prune();
    assert_eq!(
        t.to_table(),
        vec![
            Record::Branch { split_variable: 1, split_value: 5, left_child: 2, right_child: 3 },
            Record::Leaf { action: 1 },
            Record::Leaf { action: 2 },
        ]
    );
}

#[test]
fn two_level_tree_breadth_first_order() {
    // A full two-level tree: records come out level by level, and each
    // branch record points at the slots where its children are recorded.
    let ll = Node::new_branch(leaf(1, 0), leaf(2, 1), 2, 10);
    let rr = Node::new_branch(leaf(3, 2), leaf(4, 3), 3, 20);
    let t = Node::new_branch(ll, rr, 1, 5);
    let table = t.to_table();
    assert_eq!(table.len(), 7);
    assert_eq!(
        table[0],
        Record::Branch { split_variable: 2, split_value: 5, left_child: 2, right_child: 3 }
    );
    assert_eq!(
        table[1],
        Record::Branch { split_variable: 3, split_value: 10, left_child: 4, right_child: 5 }
    );
    assert_eq!(
        table[2],
        Record::Branch { split_variable: 4, split_value: 20, left_child: 6, right_child: 7 }
    );
    assert_eq!(table[3], Record::Leaf { action: 1 });
    assert_eq!(table[4], Record::Leaf { action: 2 });
    assert_eq!(table[5], Record::Leaf { action: 3 });
    assert_eq!(table[6], Record::Leaf { action: 4 });
}

#[test]
fn lopsided_tree_child_slots_match_positions() {
    // An asymmetric tree: every branch record's 1-based child slots L and
    // L + 1 name the positions L - 1 and L where the children are recorded.
    let inner = Node::new_branch(leaf(1, 0), leaf(2, 1), 0, 3);
    let mid = Node::new_branch(inner, leaf(3, 2), 1, 4);
    let t = Node::new_branch(leaf(4, 3), mid, 2, 8);
    let table = t.to_table();
    assert_eq!(table.len(), 7);
    assert_eq!(
        table[0],
        Record::Branch { split_variable: 3, split_value: 8, left_child: 2, right_child: 3 }
    );
    assert_eq!(table[1], Record::Leaf { action: 4 });
    assert_eq!(
        table[2],
        Record::Branch { split_variable: 2, split_value: 4, left_child: 4, right_child: 5 }
    );
    assert_eq!(
        table[3],
        Record::Branch { split_variable: 1, split_value: 3, left_child: 6, right_child: 7 }
    );
    assert_eq!(table[4], Record::Leaf { action: 3 });
    assert_eq!(table[5], Record::Leaf { action: 1 });
    assert_eq!(table[6], Record::Leaf { action: 2 });
}

#[test]
fn table_ready_rejects_overflowing_action() {
    // An action at the very top of the range leaves no room for the 1-based
    // shift, and the readiness check says so.
    let t = leaf(0, usize::MAX);
    assert!(!t.table_ready());
    let ok = Node::new_branch(leaf(0, usize::MAX - 1), leaf(1, 2), 0, 1);
    assert!(ok.table_ready());
}
