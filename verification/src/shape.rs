//! Binary tree shapes: how the values of an expression are grouped, without
//! the values and the operators.

use crate::catalan::{catalan, lemma_count_of_shapes};
use vstd::prelude::*;

verus! {

/// A tree shape: a leaf, or an internal node that owns two subtrees.
#[derive(Debug, PartialEq, Eq, PartialOrd, Ord)]
pub enum Node {
    Leaf,
    Node { left: Box<Node>, right: Box<Node> },
}

/// Where a shape stands with respect to another in the order of shapes.
#[derive(Debug, Clone, Copy, PartialEq, Eq, Structural)]
pub enum Placement {
    Before,
    Same,
    After,
}

/// The shape with two leaves.
pub open spec fn cherry() -> Node {
    Node::Node { left: Box::new(Node::Leaf), right: Box::new(Node::Leaf) }
}

/// The shape with the given subtrees.
pub open spec fn join(left: Node, right: Node) -> Node {
    Node::Node { left: Box::new(left), right: Box::new(right) }
}

impl Node {
    /// The number of leaves.
    pub open spec fn leaves(self) -> nat
        decreases self,
    {
        match self {
            Node::Leaf => 1,
            Node::Node { left, right } => left.leaves() + right.leaves(),
        }
    }

    /// The shapes obtained by replacing one leaf with an internal node of
    /// two leaves, leaf by leaf from left to right.
    pub open spec fn expansions(self) -> Seq<Node>
        decreases self,
    {
        match self {
            Node::Leaf => seq![cherry()],
            Node::Node { left, right } => left.expansions().map_values(|n: Node| join(n, *right))
                + right.expansions().map_values(|n: Node| join(*left, n)),
        }
    }

    /// The order of shapes: a leaf comes before every internal node, and
    /// internal nodes are ordered by their left subtrees, then by their
    /// right subtrees.
    pub open spec fn precedes(self, other: Node) -> bool
        decreases self,
    {
        match self {
            Node::Leaf => other is Node,
            Node::Node { left, right } => match other {
                Node::Leaf => false,
                Node::Node { left: other_left, right: other_right } => left.precedes(*other_left)
                    || (*left == *other_left && right.precedes(*other_right)),
            },
        }
    }

    /// Counts the leaves.
    pub fn count_leaf(&self) -> (count: usize)
        requires
            self.leaves() <= usize::MAX,
        ensures
            count == self.leaves(),
        decreases self,
    {
        match self {
            Node::Leaf => 1,
            Node::Node { left, right } => left.count_leaf() + right.count_leaf(),
        }
    }

    /// Whether `self` comes before `other`, is `other`, or comes after it.
    pub fn compare(&self, other: &Node) -> (o: Placement)
        ensures
            o == Placement::Before <==> self.precedes(*other),
            o == Placement::Same <==> *self == *other,
            o == Placement::After <==> other.precedes(*self),
        decreases self,
    {
        proof {
            lemma_order_strict(*self, *other);
        }
        match self {
            Node::Leaf => match other {
                Node::Leaf => Placement::Same,
                Node::Node { .. } => Placement::Before,
            },
            Node::Node { left, right } => match other {
                Node::Leaf => Placement::After,
                Node::Node { left: other_left, right: other_right } => {
                    proof {
                        lemma_order_strict(**left, **other_left);
                        lemma_order_strict(**right, **other_right);
                    }
                    match left.compare(other_left) {
                        Placement::Same => right.compare(other_right),
                        o => o,
                    }
                },
            },
        }
    }

    /// The shapes obtained by replacing one leaf with an internal node of
    /// two leaves, leaf by leaf from left to right.
    pub fn map_leaf_to_node(&self) -> (out: Vec<Node>)
        ensures
            out@ == self.expansions(),
        decreases self,
    {
        match self {
            Node::Leaf => {
                let mut out: Vec<Node> = Vec::new();
                out.push(Node::Node { left: Box::new(Node::Leaf), right: Box::new(Node::Leaf) });
                assert(out@ =~= seq![cherry()]);
                out
            },
            Node::Node { left, right } => {
                let from_left = left.map_leaf_to_node();
                let from_right = right.map_leaf_to_node();
                let ghost first = left.expansions().map_values(|n: Node| join(n, **right));
                let ghost second = right.expansions().map_values(|n: Node| join(**left, n));
                let mut out: Vec<Node> = Vec::new();
                let mut i: usize = 0;
                while i < from_left.len()
                    invariant
                        i <= from_left.len(),
                        from_left@ == left.expansions(),
                        out@ == first.take(i as int),
                        first == left.expansions().map_values(|n: Node| join(n, **right)),
                    decreases from_left.len() - i,
                {
                    out.push(
                        Node::Node {
                            left: Box::new(from_left[i].clone()),
                            right: Box::new((**right).clone()),
                        },
                    );
                    i += 1;
                    assert(out@ =~= first.take(i as int));
                }
                assert(first.take(i as int) =~= first);
                let mut j: usize = 0;
                while j < from_right.len()
                    invariant
                        j <= from_right.len(),
                        from_right@ == right.expansions(),
                        out@ == first + second.take(j as int),
                        second == right.expansions().map_values(|n: Node| join(**left, n)),
                    decreases from_right.len() - j,
                {
                    out.push(
                        Node::Node {
                            left: Box::new((**left).clone()),
                            right: Box::new(from_right[j].clone()),
                        },
                    );
                    j += 1;
                    assert(out@ =~= first + second.take(j as int));
                }
                assert(second.take(j as int) =~= second);
                out
            },
        }
    }
}

impl Clone for Node {
    fn clone(&self) -> (copy: Node)
        ensures
            copy == *self,
        decreases self,
    {
        match self {
            Node::Leaf => Node::Leaf,
            Node::Node { left, right } => Node::Node {
                left: Box::new((**left).clone()),
                right: Box::new((**right).clone()),
            },
        }
    }
}

/// Of two shapes exactly one holds: the first comes before the second, they
/// are the same, or the second comes before the first.
pub proof fn lemma_order_strict(a: Node, b: Node)
    ensures
        a.precedes(b) || a == b || b.precedes(a),
        !(a.precedes(b) && b.precedes(a)),
        !(a.precedes(b) && a == b),
    decreases a,
{
    match a {
        Node::Leaf => {},
        Node::Node { left, right } => match b {
            Node::Leaf => {},
            Node::Node { left: other_left, right: other_right } => {
                lemma_order_strict(*left, *other_left);
                lemma_order_strict(*right, *other_right);
            },
        },
    }
}

/// The order of shapes is transitive.
pub proof fn lemma_order_transitive(a: Node, b: Node, c: Node)
    requires
        a.precedes(b),
        b.precedes(c),
    ensures
        a.precedes(c),
    decreases a,
{
    match a {
        Node::Leaf => {},
        Node::Node { left, right } => match b {
            Node::Leaf => {},
            Node::Node { left: b_left, right: b_right } => match c {
                Node::Leaf => {},
                Node::Node { left: c_left, right: c_right } => {
                    if left.precedes(*b_left) && b_left.precedes(*c_left) {
                        lemma_order_transitive(*left, *b_left, *c_left);
                    }
                    if right.precedes(*b_right) && b_right.precedes(*c_right) {
                        lemma_order_transitive(*right, *b_right, *c_right);
                    }
                },
            },
        },
    }
}

/// Whether the shapes of `s` stand in strictly ascending order; then none
/// occurs twice.
pub open spec fn ascending(s: Seq<Node>) -> bool {
    forall|i: int, j: int| 0 <= i < j < s.len() ==> s[i].precedes(s[j])
}

/// Every shape has a leaf, and only the leaf has just one.
pub proof fn lemma_leaves_positive(t: Node)
    ensures
        t.leaves() >= 1,
        t.leaves() == 1 <==> t is Leaf,
    decreases t,
{
    match t {
        Node::Leaf => {},
        Node::Node { left, right } => {
            lemma_leaves_positive(*left);
            lemma_leaves_positive(*right);
        },
    }
}

/// Replacing a leaf with an internal node of two leaves adds one leaf, and
/// a shape has one such replacement for each of its leaves.
pub proof fn lemma_expansions_leaves(t: Node)
    ensures
        t.expansions().len() == t.leaves(),
        forall|i: int| 0 <= i < t.expansions().len() ==> (#[trigger] t.expansions()[i]).leaves() == t.leaves() + 1,
    decreases t,
{
    match t {
        Node::Leaf => {
            assert(cherry().leaves() == 2) by {
                reveal_with_fuel(Node::leaves, 2);
            }
        },
        Node::Node { left, right } => {
            lemma_expansions_leaves(*left);
            lemma_expansions_leaves(*right);
            let first = left.expansions().map_values(|n: Node| join(n, *right));
            let second = right.expansions().map_values(|n: Node| join(*left, n));
            assert forall|i: int| 0 <= i < t.expansions().len() implies (#[trigger] t.expansions()[i]).leaves() == t.leaves() + 1 by {
                if i < first.len() {
                    assert(t.expansions()[i] == join(left.expansions()[i], *right));
                } else {
                    assert(t.expansions()[i] == join(*left, right.expansions()[i - first.len()]));
                }
            }
        },
    }
}

/// Every shape with two leaves or more comes from a shape with one leaf
/// less by replacing one of its leaves.
pub proof fn lemma_parent(t: Node) -> (p: Node)
    requires
        t.leaves() >= 2,
    ensures
        p.leaves() + 1 == t.leaves(),
        p.expansions().contains(t),
    decreases t,
{
    lemma_leaves_positive(t);
    match t {
        Node::Leaf => Node::Leaf,
        Node::Node { left, right } => {
            lemma_leaves_positive(*left);
            lemma_leaves_positive(*right);
            if *left is Node {
                let q = lemma_parent(*left);
                let p = join(q, *right);
                let k = choose|k: int| 0 <= k < q.expansions().len() && q.expansions()[k] == *left;
                let first = q.expansions().map_values(|n: Node| join(n, *right));
                assert(first[k] == t);
                assert(p.expansions()[k] == t);
                p
            } else if *right is Node {
                let q = lemma_parent(*right);
                let p = join(*left, q);
                let k = choose|k: int| 0 <= k < q.expansions().len() && q.expansions()[k] == *right;
                let first = left.expansions().map_values(|n: Node| join(n, q));
                let second = q.expansions().map_values(|n: Node| join(*left, n));
                assert(second[k] == t);
                assert(p.expansions()[first.len() + k] == t);
                p
            } else {
                assert(t == cherry());
                assert(Node::Leaf.expansions()[0] == t);
                Node::Leaf
            }
        },
    }
}

/// Whether `list` holds the shapes with `n` leaves, each once, in ascending
/// order.
pub open spec fn lists_shapes(list: Seq<Node>, n: nat) -> bool {
    ascending(list) && forall|t: Node| list.contains(t) <==> t.leaves() == n
}

/// The shapes with `n` leaves in ascending order.
pub open spec fn shapes_in_order(n: nat) -> Seq<Node> {
    choose|list: Seq<Node>| lists_shapes(list, n)
}

/// Two lists in ascending order that hold the same shapes are the same.
pub proof fn lemma_ascending_unique(a: Seq<Node>, b: Seq<Node>)
    requires
        ascending(a),
        ascending(b),
        forall|t: Node| a.contains(t) <==> b.contains(t),
    ensures
        a == b,
    decreases a.len(),
{
    if a.len() == 0 {
        if b.len() > 0 {
            assert(b.contains(b[0]));
        }
        assert(a =~= b);
    } else if b.len() == 0 {
        assert(a.contains(a[0]));
    } else {
        let x = a.last();
        let y = b.last();
        assert(a.contains(x));
        assert(b.contains(y));
        let i = choose|i: int| 0 <= i < b.len() && b[i] == x;
        let j = choose|j: int| 0 <= j < a.len() && a[j] == y;
        lemma_order_strict(x, y);
        assert(x == y);
        let front_a = a.drop_last();
        let front_b = b.drop_last();
        assert forall|t: Node| front_a.contains(t) <==> front_b.contains(t) by {
            if front_a.contains(t) {
                let k = choose|k: int| 0 <= k < front_a.len() && front_a[k] == t;
                assert(a[k] == t && a[k].precedes(x));
                lemma_order_strict(t, x);
                assert(a.contains(t));
                let m = choose|m: int| 0 <= m < b.len() && b[m] == t;
                assert(front_b[m] == t);
            }
            if front_b.contains(t) {
                let k = choose|k: int| 0 <= k < front_b.len() && front_b[k] == t;
                assert(b[k] == t && b[k].precedes(y));
                lemma_order_strict(t, y);
                assert(b.contains(t));
                let m = choose|m: int| 0 <= m < a.len() && a[m] == t;
                assert(front_a[m] == t);
            }
        }
        lemma_ascending_unique(front_a, front_b);
        assert(a =~= front_a.push(x));
        assert(b =~= front_b.push(y));
    }
}

/// A list that holds the shapes with `n` leaves in ascending order is the
/// list of them.
pub proof fn lemma_shapes_in_order(list: Seq<Node>, n: nat)
    requires
        lists_shapes(list, n),
    ensures
        list == shapes_in_order(n),
{
    let chosen = shapes_in_order(n);
    assert(lists_shapes(chosen, n));
    assert forall|t: Node| list.contains(t) <==> chosen.contains(t) by {
        assert(list.contains(t) <==> t.leaves() == n);
        assert(chosen.contains(t) <==> t.leaves() == n);
    }
    lemma_ascending_unique(list, chosen);
}

/// Puts `shape` at its place in the ascending `list`, unless it is there.
fn insert_sorted(list: &mut Vec<Node>, shape: Node)
    requires
        ascending(old(list)@),
    ensures
        ascending(final(list)@),
        forall|t: Node| final(list)@.contains(t) <==> old(list)@.contains(t) || t == shape,
{
    // The place is sought by halving: the shapes before `i` come before
    // `shape`, and `shape` comes before those from `end` on.
    let mut i: usize = 0;
    let mut end: usize = list.len();
    let mut found = false;
    while i < end && !found
        invariant
            i <= end <= list@.len(),
            list@ == old(list)@,
            ascending(list@),
            forall|k: int| 0 <= k < i ==> (#[trigger] list@[k]).precedes(shape),
            forall|k: int| end <= k < list@.len() ==> shape.precedes(#[trigger] list@[k]),
            found ==> i < list@.len() && list@[i as int] == shape,
        decreases end - i + (if found { 0int } else { 1int }),
    {
        let middle = i + (end - i) / 2;
        match list[middle].compare(&shape) {
            Placement::Before => {
                proof {
                    assert forall|k: int| 0 <= k < middle + 1 implies (#[trigger] list@[k]).precedes(
                        shape,
                    ) by {
                        if k < middle {
                            lemma_order_transitive(list@[k], list@[middle as int], shape);
                        }
                    }
                }
                i = middle + 1;
            },
            Placement::Same => {
                i = middle;
                found = true;
            },
            Placement::After => {
                proof {
                    assert forall|k: int| middle <= k < list@.len() implies shape.precedes(
                        #[trigger] list@[k],
                    ) by {
                        if k > middle {
                            lemma_order_transitive(shape, list@[middle as int], list@[k]);
                        }
                    }
                }
                end = middle;
            },
        }
    }
    if found {
        assert(list@.contains(shape));
    } else {
        let ghost before = list@;
        list.insert(i, shape);
        proof {
            let after = list@;
            assert forall|a: int, b: int| 0 <= a < b < after.len() implies after[a].precedes(
                after[b],
            ) by {
                if b < i {
                } else if b == i {
                    assert(after[a] == before[a]);
                } else if a < i {
                    assert(after[a] == before[a] && after[b] == before[b - 1]);
                } else if a == i {
                    assert(after[b] == before[b - 1]);
                } else {
                    assert(after[a] == before[a - 1] && after[b] == before[b - 1]);
                }
            }
            assert forall|t: Node| after.contains(t) <==> before.contains(t) || t == shape by {
                if after.contains(t) {
                    let k = choose|k: int| 0 <= k < after.len() && after[k] == t;
                    if k < i {
                        assert(before[k] == t);
                    } else if k > i {
                        assert(before[k - 1] == t);
                    }
                }
                if before.contains(t) {
                    let k = choose|k: int| 0 <= k < before.len() && before[k] == t;
                    if k < i {
                        assert(after[k] == t);
                    } else {
                        assert(after[k + 1] == t);
                    }
                }
                if t == shape {
                    assert(after[i as int] == t);
                }
            }
        }
    }
}

/// Puts every shape that comes from `shape` by replacing one leaf into the
/// ascending `list`.
fn insert_expansions(list: &mut Vec<Node>, shape: &Node)
    requires
        ascending(old(list)@),
    ensures
        ascending(final(list)@),
        forall|t: Node|
            final(list)@.contains(t) <==> old(list)@.contains(t) || shape.expansions().contains(t),
{
    let grown = shape.map_leaf_to_node();
    let mut i: usize = 0;
    while i < grown.len()
        invariant
            i <= grown@.len(),
            grown@ == shape.expansions(),
            ascending(list@),
            forall|t: Node|
                list@.contains(t) <==> old(list)@.contains(t) || grown@.take(i as int).contains(t),
        decreases grown@.len() - i,
    {
        let ghost before = list@;
        insert_sorted(list, grown[i].clone());
        proof {
            let done = grown@.take(i as int);
            let more = grown@.take(i + 1);
            assert forall|t: Node|
                list@.contains(t) <==> old(list)@.contains(t) || more.contains(t) by {
                if done.contains(t) {
                    let k = choose|k: int| 0 <= k < done.len() && done[k] == t;
                    assert(more[k] == t);
                }
                if more.contains(t) {
                    let k = choose|k: int| 0 <= k < more.len() && more[k] == t;
                    if k < i {
                        assert(done[k] == t);
                    }
                }
                assert(more[i as int] == grown@[i as int]);
            }
        }
        i += 1;
    }
    assert(grown@.take(i as int) =~= grown@);
}

impl Node {
    /// Every shape with `target` leaves, each once, in ascending order.
    /// There are as many as the Catalan number of `target - 1` says.
    pub fn get_all_tree(target: usize) -> (shapes: Vec<Node>)
        requires
            target >= 2,
        ensures
            shapes@ == shapes_in_order(target as nat),
            ascending(shapes@),
            shapes@.no_duplicates(),
            forall|t: Node| shapes@.contains(t) <==> t.leaves() == target,
            shapes@.len() == catalan((target - 1) as nat),
    {
        let mut result: Vec<Node> = Vec::new();
        result.push(Node::Node { left: Box::new(Node::Leaf), right: Box::new(Node::Leaf) });
        proof {
            assert forall|t: Node| result@.contains(t) <==> t.leaves() == 2 by {
                lemma_leaves_positive(t);
                assert(result@[0] == cherry());
                assert(cherry().leaves() == 2) by {
                    reveal_with_fuel(Node::leaves, 2);
                }
                if t.leaves() == 2 {
                    match t {
                        Node::Leaf => {},
                        Node::Node { left, right } => {
                            lemma_leaves_positive(*left);
                            lemma_leaves_positive(*right);
                            assert(t == cherry());
                        },
                    }
                }
            }
        }
        let mut leaf_count: usize = 2;
        while leaf_count < target
            invariant
                2 <= leaf_count <= target,
                ascending(result@),
                forall|t: Node| result@.contains(t) <==> t.leaves() == leaf_count,
            decreases target - leaf_count,
        {
            let mut next: Vec<Node> = Vec::new();
            let mut i: usize = 0;
            while i < result.len()
                invariant
                    i <= result@.len(),
                    ascending(next@),
                    forall|t: Node|
                        next@.contains(t) <==> exists|k: int|
                            0 <= k < i && (#[trigger] result@[k]).expansions().contains(t),
                decreases result@.len() - i,
            {
                let ghost before = next@;
                insert_expansions(&mut next, &result[i]);
                proof {
                    assert forall|t: Node|
                        next@.contains(t) <==> exists|k: int|
                            0 <= k < i + 1 && (#[trigger] result@[k]).expansions().contains(t) by {
                        if result@[i as int].expansions().contains(t) {
                            assert(exists|k: int|
                                0 <= k < i + 1 && (#[trigger] result@[k]).expansions().contains(t));
                        }
                    }
                }
                i += 1;
            }
            proof {
                assert forall|t: Node| next@.contains(t) <==> t.leaves() == leaf_count + 1 by {
                    if next@.contains(t) {
                        let k = choose|k: int|
                            0 <= k < i && (#[trigger] result@[k]).expansions().contains(t);
                        let from = result@[k];
                        assert(result@.contains(from));
                        lemma_expansions_leaves(from);
                    }
                    if t.leaves() == leaf_count + 1 {
                        let from = lemma_parent(t);
                        assert(result@.contains(from));
                        let k = choose|k: int| 0 <= k < result@.len() && result@[k] == from;
                        assert(result@[k].expansions().contains(t));
                    }
                }
            }
            result = next;
            leaf_count += 1;
        }
        proof {
            lemma_count_of_shapes(result@, target as nat);
            lemma_shapes_in_order(result@, target as nat);
        }
        result
    }
}

} // verus!
