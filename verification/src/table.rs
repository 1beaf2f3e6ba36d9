//! Flattening: breadth-first serialization of a tree into an ordered table
//! of records with 1-based cross-references.
//!
//! The table is the wire format handed to an external consumer that expects
//! a flat array-of-records tree encoding: slot index `k` (1-based) is found
//! at sequence position `k - 1`, slot 1 is the root, and every branch record
//! names the slots where its two children will appear.

use vstd::prelude::*;

use crate::node::Node;

verus! {

/// One record of the flattened table, one per visited node.
///
/// All externally visible indices are 1-based: a leaf's `action` is the
/// stored 0-based action plus one, a branch's `split_variable` is the stored
/// 0-based axis plus one, and `left_child`/`right_child` are 1-based slot
/// indices into the table itself.
#[derive(Debug, Clone, Copy, PartialEq, Eq, Structural)]
pub enum Record {
    Leaf { action: usize },
    Branch { split_variable: usize, split_value: i64, left_child: usize, right_child: usize },
}

impl Record {
    /// The 1-based action of a leaf record.
    pub open spec fn action(self) -> usize
        recommends
            self is Leaf,
    {
        match self {
            Record::Leaf { action } => action,
            Record::Branch { .. } => arbitrary(),
        }
    }

    /// The 1-based split axis of a branch record.
    pub open spec fn split_variable(self) -> usize
        recommends
            self is Branch,
    {
        match self {
            Record::Leaf { .. } => arbitrary(),
            Record::Branch { split_variable, .. } => split_variable,
        }
    }

    /// The split threshold of a branch record.
    pub open spec fn split_value(self) -> i64
        recommends
            self is Branch,
    {
        match self {
            Record::Leaf { .. } => arbitrary(),
            Record::Branch { split_value, .. } => split_value,
        }
    }

    /// The 1-based table slot of a branch record's left child.
    pub open spec fn left_child(self) -> usize
        recommends
            self is Branch,
    {
        match self {
            Record::Leaf { .. } => arbitrary(),
            Record::Branch { left_child, .. } => left_child,
        }
    }

    /// The 1-based table slot of a branch record's right child.
    pub open spec fn right_child(self) -> usize
        recommends
            self is Branch,
    {
        match self {
            Record::Leaf { .. } => arbitrary(),
            Record::Branch { right_child, .. } => right_child,
        }
    }
}

/// Total number of tree nodes held by a queue of subtrees.
pub open spec fn total_count(q: Seq<Node>) -> nat
    decreases q.len(),
{
    if q.len() == 0 {
        0
    } else {
        q[0].count() + total_count(q.drop_first())
    }
}

/// The nodes visited by the breadth-first traversal, in visitation order,
/// starting from a queue of pending subtrees.
pub open spec fn bfs_nodes(q: Seq<Node>) -> Seq<Node>
    decreases total_count(q),
    via bfs_decreases
{
    if q.len() == 0 {
        Seq::empty()
    } else {
        match q[0] {
            Node::Leaf { .. } => seq![q[0]] + bfs_nodes(q.drop_first()),
            Node::Branch { left, right, .. } => seq![q[0]] + bfs_nodes(
                q.drop_first().push(*left).push(*right),
            ),
        }
    }
}

/// The records emitted by the breadth-first traversal.  `next` is the next
/// unused 1-based table slot; it starts at 2 (slot 1 is the root) and
/// advances by 2 for every branch record, since a branch enqueues exactly
/// two children, left before right.
pub open spec fn bfs_records(q: Seq<Node>, next: int) -> Seq<Record>
    decreases total_count(q),
    via bfs_records_decreases
{
    if q.len() == 0 {
        Seq::empty()
    } else {
        match q[0] {
            Node::Leaf { action, .. } => seq![
                (Record::Leaf { action: (action + 1) as usize }),
            ] + bfs_records(q.drop_first(), next),
            Node::Branch { axis, cut_point, left, right, .. } => seq![
                (Record::Branch {
                    split_variable: (axis + 1) as usize,
                    split_value: cut_point,
                    left_child: next as usize,
                    right_child: (next + 1) as usize,
                }),
            ] + bfs_records(q.drop_first().push(*left).push(*right), next + 2),
        }
    }
}

/// Every node holds at least itself.
pub proof fn lemma_count_pos(n: Node)
    ensures
        n.count() >= 1,
{
}

/// Appending a subtree to the queue adds its node count to the total.
pub proof fn lemma_total_count_push(q: Seq<Node>, n: Node)
    ensures
        total_count(q.push(n)) == total_count(q) + n.count(),
    decreases q.len(),
{
    if q.len() == 0 {
        assert(q.push(n).drop_first() =~= Seq::<Node>::empty());
        assert(total_count(Seq::<Node>::empty()) == 0);
        assert(q.push(n)[0] == n);
        assert(total_count(q) == 0);
    } else {
        assert(q.push(n).drop_first() =~= q.drop_first().push(n));
        lemma_total_count_push(q.drop_first(), n);
        assert(q.push(n)[0] == q[0]);
        assert(total_count(q.push(n)) == q[0].count() + total_count(q.drop_first().push(n)));
    }
}

proof fn queue_step_facts(q: Seq<Node>)
    requires
        q.len() > 0,
        q[0] is Branch,
    ensures
        total_count(q.drop_first().push(q[0].left()).push(q[0].right())) == total_count(q) - 1,
{
    lemma_total_count_push(q.drop_first(), q[0].left());
    lemma_total_count_push(q.drop_first().push(q[0].left()), q[0].right());
}

#[via_fn]
proof fn bfs_decreases(q: Seq<Node>) {
    if q.len() > 0 && q[0] is Branch {
        queue_step_facts(q);
    }
}

#[via_fn]
proof fn bfs_records_decreases(q: Seq<Node>, next: int) {
    if q.len() > 0 && q[0] is Branch {
        queue_step_facts(q);
    }
}

/// Number of branch nodes among the first `j` elements of `s`.
pub open spec fn branches_before(s: Seq<Node>, j: int) -> int
    decreases j,
{
    if j <= 0 {
        0
    } else {
        branches_before(s, j - 1) + if s[j - 1] is Branch {
            1int
        } else {
            0int
        }
    }
}

/// A queue holds at least one node per pending subtree.
pub proof fn lemma_total_count_ge_len(q: Seq<Node>)
    ensures
        total_count(q) >= q.len(),
    decreases q.len(),
{
    if q.len() > 0 {
        lemma_count_pos(q[0]);
        lemma_total_count_ge_len(q.drop_first());
    }
}

/// Prepending one node shifts the branch count by that node's own tag.
proof fn lemma_bb_shift(h: Node, s: Seq<Node>, j: int)
    requires
        0 <= j <= s.len(),
    ensures
        branches_before(seq![h] + s, j + 1) == branches_before(s, j) + if h is Branch {
            1int
        } else {
            0int
        },
    decreases j,
{
    if j == 0 {
        assert((seq![h] + s)[0] == h);
        assert(branches_before(seq![h] + s, 0) == 0);
        assert(branches_before(s, 0) == 0);
    } else {
        lemma_bb_shift(h, s, j - 1);
        assert((seq![h] + s)[j] == s[j - 1]);
        assert(branches_before(seq![h] + s, j + 1) == branches_before(seq![h] + s, j) + if (seq![h]
            + s)[j] is Branch {
            1int
        } else {
            0int
        });
        assert(branches_before(s, j) == branches_before(s, j - 1) + if s[j - 1] is Branch {
            1int
        } else {
            0int
        });
    }
}

/// There are no more branches among the first `j` visited nodes than nodes.
pub proof fn lemma_bb_le(s: Seq<Node>, j: int)
    requires
        0 <= j,
    ensures
        0 <= branches_before(s, j) <= j,
    decreases j,
{
    if j > 0 {
        lemma_bb_le(s, j - 1);
    }
}

/// What the table says at position `j` when the `j`-th visited node is a
/// leaf: the record re-bases the stored action to 1-indexed.
pub open spec fn leaf_record_ok(q: Seq<Node>, next: int, j: int) -> bool {
    bfs_records(q, next)[j] == (Record::Leaf {
        action: (bfs_nodes(q)[j].action() + 1) as usize,
    })
}

/// What the table says at position `j` when the `j`-th visited node is a
/// branch: the record carries the 1-based axis and the threshold, its child
/// slots are consecutive and determined by the slot counter, and the two
/// children really are the nodes visited at those slots.
pub open spec fn branch_record_ok(q: Seq<Node>, next: int, j: int) -> bool {
    let s = bfs_nodes(q);
    let lpos = q.len() + 2 * branches_before(s, j);
    &&& bfs_records(q, next)[j] == (Record::Branch {
        split_variable: (s[j].axis() + 1) as usize,
        split_value: s[j].cut_point(),
        left_child: (next + 2 * branches_before(s, j)) as usize,
        right_child: (next + 2 * branches_before(s, j) + 1) as usize,
    })
    &&& lpos + 1 < total_count(q)
    &&& s[lpos] == s[j].left()
    &&& s[lpos + 1] == s[j].right()
}

/// The breadth-first traversal visits every node of every queued subtree
/// exactly once; the first `q.len()` visited are the queued roots themselves,
/// in order; and each emitted record describes its visited node, with branch
/// records pointing at the exact positions where their children are visited.
proof fn lemma_bfs(q: Seq<Node>, next: int)
    ensures
        bfs_nodes(q).len() == total_count(q),
        bfs_records(q, next).len() == total_count(q),
        forall|k: int| 0 <= k < q.len() ==> bfs_nodes(q)[k] == q[k],
        forall|j: int|
            0 <= j < total_count(q) && bfs_nodes(q)[j] is Leaf ==> #[trigger] leaf_record_ok(
                q,
                next,
                j,
            ),
        forall|j: int|
            0 <= j < total_count(q) && bfs_nodes(q)[j] is Branch ==> #[trigger] branch_record_ok(
                q,
                next,
                j,
            ),
    decreases total_count(q),
{
    if q.len() == 0 {
    } else {
        let h = q[0];
        let s = bfs_nodes(q);
        let t = bfs_records(q, next);
        match h {
            Node::Leaf { .. } => {
                let q1 = q.drop_first();
                lemma_bfs(q1, next);
                lemma_total_count_ge_len(q1);
                let s1 = bfs_nodes(q1);
                let t1 = bfs_records(q1, next);
                assert(s == seq![h] + s1);
                assert(t == seq![(Record::Leaf { action: (h.action() + 1) as usize })] + t1);
                assert forall|k: int| 0 <= k < q.len() implies s[k] == q[k] by {
                    if k > 0 {
                        assert(s1[k - 1] == q1[k - 1]);
                    }
                }
                assert forall|j: int|
                    0 <= j < total_count(q) && s[j] is Leaf implies #[trigger] leaf_record_ok(
                    q,
                    next,
                    j,
                ) by {
                    if j > 0 {
                        assert(s[j] == s1[j - 1]);
                        assert(t[j] == t1[j - 1]);
                        assert(leaf_record_ok(q1, next, j - 1));
                    }
                }
                assert forall|j: int|
                    0 <= j < total_count(q) && s[j] is Branch implies #[trigger] branch_record_ok(
                    q,
                    next,
                    j,
                ) by {
                    assert(j > 0);
                    assert(s[j] == s1[j - 1]);
                    assert(t[j] == t1[j - 1]);
                    assert(branch_record_ok(q1, next, j - 1));
                    lemma_bb_shift(h, s1, j - 1);
                    lemma_bb_le(s1, j - 1);
                    let lpos1 = q1.len() + 2 * branches_before(s1, j - 1);
                    assert(s[lpos1 + 1] == s1[lpos1]);
                }
            },
            Node::Branch { left, right, .. } => {
                let l = *left;
                let r = *right;
                let q1 = q.drop_first().push(l).push(r);
                queue_step_facts(q);
                lemma_bfs(q1, next + 2);
                lemma_total_count_ge_len(q1);
                let s1 = bfs_nodes(q1);
                let t1 = bfs_records(q1, next + 2);
                assert(s == seq![h] + s1);
                assert(t == seq![
                    (Record::Branch {
                        split_variable: (h.axis() + 1) as usize,
                        split_value: h.cut_point(),
                        left_child: next as usize,
                        right_child: (next + 1) as usize,
                    }),
                ] + t1);
                lemma_total_count_ge_len(q.drop_first());
                lemma_count_pos(l);
                lemma_count_pos(r);
                assert(total_count(q) >= q.len() + 2);
                assert forall|k: int| 0 <= k < q.len() implies s[k] == q[k] by {
                    if k > 0 {
                        assert(s1[k - 1] == q1[k - 1]);
                        assert(q1[k - 1] == q[k]);
                    }
                }
                assert forall|j: int|
                    0 <= j < total_count(q) && s[j] is Leaf implies #[trigger] leaf_record_ok(
                    q,
                    next,
                    j,
                ) by {
                    assert(j > 0);
                    assert(s[j] == s1[j - 1]);
                    assert(t[j] == t1[j - 1]);
                    assert(leaf_record_ok(q1, next + 2, j - 1));
                }
                assert forall|j: int|
                    0 <= j < total_count(q) && s[j] is Branch implies #[trigger] branch_record_ok(
                    q,
                    next,
                    j,
                ) by {
                    if j == 0 {
                        assert(branches_before(s, 0) == 0);
                        assert(s1[q1.len() - 2] == q1[q1.len() - 2]);
                        assert(s1[q1.len() - 1] == q1[q1.len() - 1]);
                        assert(q1[q1.len() - 2] == l);
                        assert(q1[q1.len() - 1] == r);
                        assert(s[q.len() as int] == s1[q.len() as int - 1]);
                        assert(s[q.len() as int + 1] == s1[q.len() as int]);
                    } else {
                        lemma_bb_shift(h, s1, j - 1);
                        lemma_bb_le(s1, j - 1);
                        assert(s[j] == s1[j - 1]);
                        assert(t[j] == t1[j - 1]);
                        assert(branch_record_ok(q1, next + 2, j - 1));
                        let lpos1 = q1.len() + 2 * branches_before(s1, j - 1);
                        assert(s[lpos1 + 1] == s1[lpos1]);
                    }
                }
            },
        }
    }
}

/// The full table of a tree: the breadth-first records, with slot 2 as the
/// first slot available for children of the root.
pub open spec fn table_spec(n: Node) -> Seq<Record> {
    bfs_records(seq![n], 2)
}

/// The breadth-first visitation order of a tree's nodes: the node whose
/// record stands at table position `j` is `visit_spec(n)[j]`.
pub open spec fn visit_spec(n: Node) -> Seq<Node> {
    bfs_nodes(seq![n])
}

/// Flattening round-trip on indices: the table of a tree with `n` nodes has
/// one record per node in visitation order, the root's record at position 0;
/// a branch record's child slots are consecutive 1-based indices `L` and
/// `L + 1` with `1 <= L <= n - 1`, and the nodes recorded at positions
/// `L - 1` and `L` (0-based) are exactly that branch's left and right
/// children.
pub proof fn lemma_table_indices(n: Node)
    requires
        2 * n.count() + 2 <= usize::MAX,
    ensures
        table_spec(n).len() == n.count(),
        visit_spec(n).len() == n.count(),
        visit_spec(n)[0] == n,
        forall|j: int|
            #![trigger table_spec(n)[j]]
            0 <= j < n.count() ==> (table_spec(n)[j] is Leaf <==> visit_spec(n)[j] is Leaf),
        forall|j: int|
            #![trigger table_spec(n)[j]]
            0 <= j < n.count() && visit_spec(n)[j] is Leaf ==> table_spec(n)[j] == (Record::Leaf {
                action: (visit_spec(n)[j].action() + 1) as usize,
            }),
        forall|j: int|
            #![trigger table_spec(n)[j]]
            0 <= j < n.count() && visit_spec(n)[j] is Branch ==> {
                let rec = table_spec(n)[j];
                let node = visit_spec(n)[j];
                &&& rec is Branch
                &&& rec.split_variable() == (node.axis() + 1) as usize
                &&& rec.split_value() == node.cut_point()
                &&& 1 <= rec.left_child() < n.count()
                &&& rec.right_child() == rec.left_child() + 1
                &&& visit_spec(n)[rec.left_child() - 1] == node.left()
                &&& visit_spec(n)[rec.left_child() as int] == node.right()
            },
{
    let q = seq![n];
    lemma_bfs(q, 2);
    assert(q.drop_first() =~= Seq::<Node>::empty());
    assert(total_count(Seq::<Node>::empty()) == 0);
    assert(total_count(q) == n.count());
    assert(bfs_nodes(q)[0] == q[0]);
    assert forall|j: int|
        0 <= j < n.count() && visit_spec(n)[j] is Leaf implies table_spec(n)[j] == (Record::Leaf {
        action: (visit_spec(n)[j].action() + 1) as usize,
    }) by {
        assert(leaf_record_ok(q, 2, j));
    }
    assert forall|j: int| 0 <= j < n.count() && visit_spec(n)[j] is Branch implies {
        let rec = table_spec(n)[j];
        let node = visit_spec(n)[j];
        &&& rec is Branch
        &&& rec.split_variable() == (node.axis() + 1) as usize
        &&& rec.split_value() == node.cut_point()
        &&& 1 <= rec.left_child() < n.count()
        &&& rec.right_child() == rec.left_child() + 1
        &&& visit_spec(n)[rec.left_child() - 1] == node.left()
        &&& visit_spec(n)[rec.left_child() as int] == node.right()
    } by {
        assert(branch_record_ok(q, 2, j));
        lemma_bb_le(bfs_nodes(q), j);
        assert(2 + 2 * branches_before(bfs_nodes(q), j) + 1 <= usize::MAX);
    }
    assert forall|j: int|
        0 <= j < n.count() implies (table_spec(n)[j] is Leaf <==> visit_spec(n)[j] is Leaf) by {
        if visit_spec(n)[j] is Leaf {
            assert(leaf_record_ok(q, 2, j));
        } else {
            assert(branch_record_ok(q, 2, j));
        }
    }
}

impl Node {
    /// Checks that every action and axis in the tree leaves room for the
    /// 1-based shift.
    fn bounded_check(&self) -> (b: bool)
        ensures
            b == self.bounded(),
        decreases self,
    {
        match self {
            Node::Leaf { action, .. } => *action < usize::MAX,
            Node::Branch { axis, left, right, .. } => {
                *axis < usize::MAX && left.bounded_check() && right.bounded_check()
            },
        }
    }

    /// Counts the nodes of the tree, stopping at `cap`: the result is the
    /// node count or `cap`, whichever is smaller.
    fn count_capped(&self, cap: usize) -> (c: usize)
        ensures
            self.count() <= cap ==> c == self.count(),
            self.count() > cap ==> c == cap,
        decreases self,
    {
        match self {
            Node::Leaf { .. } => {
                if cap == 0 {
                    0
                } else {
                    1
                }
            },
            Node::Branch { left, right, .. } => {
                if cap == 0 {
                    0
                } else {
                    proof {
                        lemma_count_pos(self.left());
                        lemma_count_pos(self.right());
                    }
                    let lc = left.count_capped(cap - 1);
                    let rc = right.count_capped(cap - 1 - lc);
                    1 + lc + rc
                }
            },
        }
    }

    /// Decides at run time whether the tree satisfies the preconditions of
    /// [`Node::to_table`]: an unverified caller tests this before flattening.
    pub fn table_ready(&self) -> (b: bool)
        ensures
            b == (self.bounded() && 2 * self.count() + 2 <= usize::MAX),
    {
        let cap: usize = usize::MAX / 2;
        self.bounded_check() && self.count_capped(cap) < cap
    }

    /// Serializes the tree into the flat, 1-indexed array-of-records
    /// encoding: one record per node in breadth-first order, the root's
    /// record first.
    pub fn to_table(&self) -> (table: Vec<Record>)
        requires
            self.bounded(),
            2 * self.count() + 2 <= usize::MAX,
        ensures
            table@ == table_spec(*self),
            table@.len() == self.count(),
    {
        let mut queue: Vec<&Node> = Vec::new();
        queue.push(self);
        let ghost mut gq: Seq<Node> = seq![*self];
        let mut out: Vec<Record> = Vec::new();
        let mut next: usize = 2;
        let mut i: usize = 0;
        proof {
            assert(gq.skip(0) =~= gq);
            assert(gq.drop_first() =~= Seq::<Node>::empty());
            assert(total_count(Seq::<Node>::empty()) == 0);
            assert(total_count(gq) == self.count());
            assert(Seq::<Record>::empty() + bfs_records(gq, 2) =~= bfs_records(gq, 2));
        }
        while i < queue.len()
            invariant
                i <= queue.len(),
                gq.len() == queue@.len(),
                forall|k: int| 0 <= k < gq.len() ==> gq[k] == *queue@[k],
                forall|k: int| i <= k < gq.len() ==> gq[k].bounded(),
                2 <= next,
                next as int + 2 * total_count(gq.skip(i as int)) <= 2 + 2 * self.count(),
                2 * self.count() + 2 <= usize::MAX,
                table_spec(*self) == out@ + bfs_records(gq.skip(i as int), next as int),
                out@.len() + total_count(gq.skip(i as int)) == self.count(),
            decreases total_count(gq.skip(i as int)),
        {
            let cur: &Node = queue[i];
            let ghost rest: Seq<Node> = gq.skip(i as int);
            let ghost out0: Seq<Record> = out@;
            proof {
                assert(rest[0] == gq[i as int]);
                assert(rest[0].bounded());
                assert(rest.drop_first() =~= gq.skip(i as int + 1));
            }
            match cur {
                Node::Leaf { action, .. } => {
                    out.push(Record::Leaf { action: *action + 1 });
                    i = i + 1;
                    proof {
                        assert(out@ =~= out0.push(
                            (Record::Leaf { action: (rest[0].action() + 1) as usize }),
                        ));
                        assert(out0 + bfs_records(rest, next as int) =~= out@ + bfs_records(
                            gq.skip(i as int),
                            next as int,
                        ));
                    }
                }
                Node::Branch { axis, cut_point, left, right, .. } => {
                    queue.push(&**left);
                    queue.push(&**right);
                    out.push(
                        Record::Branch {
                            split_variable: *axis + 1,
                            split_value: *cut_point,
                            left_child: next,
                            right_child: next + 1,
                        },
                    );
                    proof {
                        lemma_count_pos(rest[0].left());
                        lemma_count_pos(rest[0].right());
                        queue_step_facts(rest);
                        gq = gq.push(rest[0].left()).push(rest[0].right());
                        assert(gq.skip(i as int + 1) =~= rest.drop_first().push(
                            rest[0].left(),
                        ).push(rest[0].right()));
                    }
                    next = next + 2;
                    i = i + 1;
                    proof {
                        assert(out@ =~= out0.push(
                            (Record::Branch {
                                split_variable: (rest[0].axis() + 1) as usize,
                                split_value: rest[0].cut_point(),
                                left_child: (next - 2) as usize,
                                right_child: (next - 1) as usize,
                            }),
                        ));
                        assert(out0 + bfs_records(rest, next as int - 2) =~= out@ + bfs_records(
                            gq.skip(i as int),
                            next as int,
                        ));
                    }
                }
            }
        }
        proof {
            assert(gq.skip(i as int) =~= Seq::<Node>::empty());
            assert(out@ + bfs_records(gq.skip(i as int), next as int) =~= out@);
        }
        out
    }
}

} // verus!

