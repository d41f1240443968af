//! Counting tree shapes: there are as many shapes with `n` leaves as the
//! Catalan number of `n - 1` says.

use crate::shape::{
    ascending, join, lemma_leaves_positive, lemma_order_strict, lemma_order_transitive, lists_shapes,
    shapes_in_order, Node,
};
use vstd::prelude::*;
use vstd::seq_lib::lemma_no_dup_in_concat;

verus! {

/// The Catalan numbers: `C(0) = 1`, and `C(n+1)` is the sum of
/// `C(i) * C(n-i)` over `i` from `0` to `n`.
pub open spec fn catalan(n: nat) -> nat
    decreases n, 0nat,
{
    if n == 0 {
        1
    } else {
        catalan_sum((n - 1) as nat, (n - 1) as nat)
    }
}

/// The sum of `C(i) * C(n-i)` over `i` from `0` to `upto`.
pub open spec fn catalan_sum(n: nat, upto: nat) -> nat
    decreases n, upto + 1,
{
    if upto > n {
        0
    } else if upto == 0 {
        catalan(0) * catalan(n)
    } else {
        catalan_sum(n, (upto - 1) as nat) + catalan(upto) * catalan((n - upto) as nat)
    }
}

/// Every internal node with a left subtree from `lefts` and a right subtree
/// from `rights`.
pub open spec fn pairs(lefts: Seq<Node>, rights: Seq<Node>) -> Seq<Node>
    decreases lefts.len(),
{
    if lefts.len() == 0 {
        Seq::empty()
    } else {
        pairs(lefts.drop_last(), rights) + rights.map_values(|r: Node| join(lefts.last(), r))
    }
}

/// Every shape with `n` leaves, each once.
pub open spec fn shapes(n: nat) -> Seq<Node>
    decreases n, n + 1,
{
    if n == 0 {
        Seq::empty()
    } else if n == 1 {
        seq![Node::Leaf]
    } else {
        shapes_split(n, (n - 1) as nat)
    }
}

/// Every shape with `n` leaves of which at most `k` are in the left
/// subtree, each once.
pub open spec fn shapes_split(n: nat, k: nat) -> Seq<Node>
    decreases n, k + 1,
{
    if k == 0 || k >= n {
        Seq::empty()
    } else {
        shapes_split(n, (k - 1) as nat) + pairs(shapes(k), shapes((n - k) as nat))
    }
}

proof fn lemma_pairs(lefts: Seq<Node>, rights: Seq<Node>)
    ensures
        pairs(lefts, rights).len() == lefts.len() * rights.len(),
        forall|t: Node| #[trigger]
            pairs(lefts, rights).contains(t) <==> t is Node && lefts.contains(*t->left)
                && rights.contains(*t->right),
        lefts.no_duplicates() && rights.no_duplicates() ==> pairs(lefts, rights).no_duplicates(),
    decreases lefts.len(),
{
    let all = pairs(lefts, rights);
    if lefts.len() == 0 {
        assert(lefts.len() * rights.len() == 0) by (nonlinear_arith)
            requires
                lefts.len() == 0,
        ;
    } else {
        let front = lefts.drop_last();
        let head = pairs(front, rights);
        let last = lefts.last();
        let row = rights.map_values(|r: Node| join(last, r));
        lemma_pairs(front, rights);
        assert(lefts.len() * rights.len() == front.len() * rights.len() + rights.len())
            by (nonlinear_arith)
            requires
                lefts.len() == front.len() + 1,
        ;
        assert forall|t: Node| #[trigger]
            all.contains(t) <==> t is Node && lefts.contains(*t->left) && rights.contains(
                *t->right,
            ) by {
            if all.contains(t) {
                let i = choose|i: int| 0 <= i < all.len() && all[i] == t;
                if i < head.len() {
                    assert(head[i] == t);
                    assert(head.contains(t));
                    let j = choose|j: int| 0 <= j < front.len() && front[j] == *t->left;
                    assert(lefts[j] == *t->left);
                } else {
                    assert(row[i - head.len()] == t);
                    assert(t == join(last, rights[i - head.len()]));
                    assert(lefts[lefts.len() - 1] == last);
                    assert(rights.contains(rights[i - head.len()]));
                }
            }
            if t is Node && lefts.contains(*t->left) && rights.contains(*t->right) {
                let j = choose|j: int| 0 <= j < lefts.len() && lefts[j] == *t->left;
                let k = choose|k: int| 0 <= k < rights.len() && rights[k] == *t->right;
                if j < front.len() {
                    assert(front[j] == *t->left);
                    assert(front.contains(*t->left));
                    assert(head.contains(t));
                    let i = choose|i: int| 0 <= i < head.len() && head[i] == t;
                    assert(all[i] == t);
                } else {
                    assert(row[k] == join(last, rights[k]));
                    assert(row[k] == t);
                    assert(all[head.len() + k] == t);
                }
            }
        }
        if lefts.no_duplicates() && rights.no_duplicates() {
            assert(front.no_duplicates());
            assert(row.no_duplicates()) by {
                assert forall|a: int, b: int|
                    0 <= a < row.len() && 0 <= b < row.len() && a != b implies row[a] != row[b] by {
                    assert(row[a] == join(last, rights[a]));
                    assert(row[b] == join(last, rights[b]));
                }
            }
            assert forall|a: int, b: int| 0 <= a < head.len() && 0 <= b < row.len() implies head[a]
                != row[b] by {
                assert(head.contains(head[a]));
                assert(row[b] == join(last, rights[b]));
                if head[a] == row[b] {
                    let j = choose|j: int| 0 <= j < front.len() && front[j] == last;
                    assert(lefts[j] == lefts[lefts.len() - 1]);
                }
            }
            lemma_no_dup_in_concat(head, row);
        }
    }
}

/// `shapes(n)` lists the shapes with `n` leaves, each once, and there are
/// `catalan(n - 1)` of them.
pub proof fn lemma_shapes(n: nat)
    ensures
        forall|t: Node| #[trigger] shapes(n).contains(t) <==> t.leaves() == n,
        shapes(n).no_duplicates(),
        n >= 1 ==> shapes(n).len() == catalan((n - 1) as nat),
    decreases n, n + 1,
{
    if n == 0 {
        assert forall|t: Node| #[trigger] shapes(n).contains(t) <==> t.leaves() == n by {
            lemma_leaves_positive(t);
        }
    } else if n == 1 {
        assert forall|t: Node| #[trigger] shapes(n).contains(t) <==> t.leaves() == n by {
            lemma_leaves_positive(t);
            assert(shapes(n)[0] == Node::Leaf);
        }
    } else {
        lemma_shapes_split(n, (n - 1) as nat);
        assert forall|t: Node| #[trigger] shapes(n).contains(t) <==> t.leaves() == n by {
            lemma_leaves_positive(t);
            if t.leaves() == n {
                lemma_leaves_positive(*t->left);
                lemma_leaves_positive(*t->right);
            }
        }
    }
}

proof fn lemma_shapes_split(n: nat, k: nat)
    requires
        n >= 2,
        k < n,
    ensures
        forall|t: Node| #[trigger]
            shapes_split(n, k).contains(t) <==> t is Node && t.leaves() == n && (*t->left).leaves()
                <= k,
        shapes_split(n, k).no_duplicates(),
        shapes_split(n, k).len() == (if k == 0 {
            0
        } else {
            catalan_sum((n - 2) as nat, (k - 1) as nat)
        }),
    decreases n, k + 1,
{
    let all = shapes_split(n, k);
    if k == 0 {
        assert forall|t: Node| #[trigger]
            all.contains(t) <==> t is Node && t.leaves() == n && (*t->left).leaves() <= k by {
            if t is Node {
                lemma_leaves_positive(*t->left);
            }
        }
    } else {
        let head = shapes_split(n, (k - 1) as nat);
        let lefts = shapes(k);
        let rights = shapes((n - k) as nat);
        let block = pairs(lefts, rights);
        lemma_shapes_split(n, (k - 1) as nat);
        lemma_shapes(k);
        lemma_shapes((n - k) as nat);
        lemma_pairs(lefts, rights);
        assert forall|t: Node| #[trigger]
            all.contains(t) <==> t is Node && t.leaves() == n && (*t->left).leaves() <= k by {
            if all.contains(t) {
                let i = choose|i: int| 0 <= i < all.len() && all[i] == t;
                if i < head.len() {
                    assert(head[i] == t);
                    assert(head.contains(t));
                } else {
                    assert(block[i - head.len()] == t);
                    assert(block.contains(t));
                }
            }
            if t is Node && t.leaves() == n && (*t->left).leaves() <= k {
                if (*t->left).leaves() == k {
                    assert(lefts.contains(*t->left));
                    assert(rights.contains(*t->right));
                    assert(block.contains(t));
                    let i = choose|i: int| 0 <= i < block.len() && block[i] == t;
                    assert(all[head.len() + i] == t);
                } else {
                    assert(head.contains(t));
                    let i = choose|i: int| 0 <= i < head.len() && head[i] == t;
                    assert(all[i] == t);
                }
            }
        }
        assert forall|a: int, b: int| 0 <= a < head.len() && 0 <= b < block.len() implies head[a]
            != block[b] by {
            assert(head.contains(head[a]));
            assert(block.contains(block[b]));
        }
        lemma_no_dup_in_concat(head, block);
        if k >= 2 {
            assert(catalan_sum((n - 2) as nat, (k - 1) as nat) == catalan_sum(
                (n - 2) as nat,
                (k - 2) as nat,
            ) + catalan((k - 1) as nat) * catalan((n - 2 - (k - 1)) as nat));
        } else {
            assert(catalan_sum((n - 2) as nat, 0) == catalan(0) * catalan((n - 2) as nat));
        }
    }
}

/// A list of shapes in ascending order that holds exactly the shapes with
/// `n` leaves has `catalan(n - 1)` entries, all different.
pub proof fn lemma_count_of_shapes(list: Seq<Node>, n: nat)
    requires
        n >= 1,
        ascending(list),
        forall|t: Node| list.contains(t) <==> t.leaves() == n,
    ensures
        list.no_duplicates(),
        list.len() == catalan((n - 1) as nat),
{
    assert forall|i: int, j: int| 0 <= i < list.len() && 0 <= j < list.len() && i != j implies list[i]
        != list[j] by {
        lemma_order_strict(list[i], list[j]);
        lemma_order_strict(list[j], list[i]);
    }
    lemma_shapes(n);
    assert(list.to_set() =~= shapes(n).to_set()) by {
        assert forall|t: Node| list.to_set().contains(t) <==> shapes(n).to_set().contains(t) by {
            assert(list.to_set().contains(t) <==> list.contains(t));
            assert(shapes(n).to_set().contains(t) <==> shapes(n).contains(t));
        }
    }
    list.unique_seq_to_set();
    shapes(n).unique_seq_to_set();
}

/// Where in an ascending list a shape that is not in it belongs: after the
/// shapes that come before it and before those that come after it.
proof fn lemma_insert_position(list: Seq<Node>, shape: Node) -> (i: int)
    requires
        ascending(list),
        !list.contains(shape),
    ensures
        0 <= i <= list.len(),
        forall|k: int| 0 <= k < i ==> (#[trigger] list[k]).precedes(shape),
        forall|k: int| i <= k < list.len() ==> shape.precedes(#[trigger] list[k]),
    decreases list.len(),
{
    if list.len() == 0 {
        0
    } else {
        let last = list.last();
        assert(list.contains(last));
        lemma_order_strict(last, shape);
        if last.precedes(shape) {
            assert forall|k: int| 0 <= k < list.len() implies (#[trigger] list[k]).precedes(
                shape,
            ) by {
                if k < list.len() - 1 {
                    lemma_order_transitive(list[k], last, shape);
                }
            }
            list.len() as int
        } else {
            let front = list.drop_last();
            assert(!front.contains(shape)) by {
                if front.contains(shape) {
                    let k = choose|k: int| 0 <= k < front.len() && front[k] == shape;
                    assert(list[k] == shape);
                }
            }
            let i = lemma_insert_position(front, shape);
            assert forall|k: int| 0 <= k < i implies (#[trigger] list[k]).precedes(shape) by {
                assert(list[k] == front[k]);
            }
            assert forall|k: int| i <= k < list.len() implies shape.precedes(#[trigger] list[k]) by {
                if k < list.len() - 1 {
                    assert(list[k] == front[k]);
                }
            }
            i
        }
    }
}

/// The shapes of any list can be listed in ascending order.
proof fn lemma_in_order(s: Seq<Node>) -> (list: Seq<Node>)
    ensures
        ascending(list),
        forall|t: Node| list.contains(t) <==> s.contains(t),
    decreases s.len(),
{
    if s.len() == 0 {
        Seq::empty()
    } else {
        let front = s.drop_last();
        let shape = s.last();
        let before = lemma_in_order(front);
        assert forall|t: Node| s.contains(t) <==> front.contains(t) || t == shape by {
            if s.contains(t) {
                let k = choose|k: int| 0 <= k < s.len() && s[k] == t;
                if k < s.len() - 1 {
                    assert(front[k] == t);
                }
            }
            if front.contains(t) {
                let k = choose|k: int| 0 <= k < front.len() && front[k] == t;
                assert(s[k] == t);
            }
            assert(s[s.len() - 1] == shape);
        }
        if before.contains(shape) {
            before
        } else {
            let i = lemma_insert_position(before, shape);
            let after = before.insert(i, shape);
            assert forall|a: int, b: int| 0 <= a < b < after.len() implies after[a].precedes(
                after[b],
            ) by {
                if b < i {
                } else if b == i {
                    assert(after[a] == before[a]);
                } else if a < i {
                    assert(after[a] == before[a] && after[b] == before[b - 1]);
                } else if a == i {
                    assert(after[b] == before[b - 1]);
                } else {
                    assert(after[a] == before[a - 1] && after[b] == before[b - 1]);
                }
            }
            assert forall|t: Node| after.contains(t) <==> before.contains(t) || t == shape by {
                if after.contains(t) {
                    let k = choose|k: int| 0 <= k < after.len() && after[k] == t;
                    if k < i {
                        assert(before[k] == t);
                    } else if k > i {
                        assert(before[k - 1] == t);
                    }
                }
                if before.contains(t) {
                    let k = choose|k: int| 0 <= k < before.len() && before[k] == t;
                    if k < i {
                        assert(after[k] == t);
                    } else {
                        assert(after[k + 1] == t);
                    }
                }
                if t == shape {
                    assert(after[i] == t);
                }
            }
            after
        }
    }
}

/// The list of the shapes with `n` leaves in ascending order holds each of
/// them, and nothing else.
pub proof fn lemma_shapes_listed(n: nat)
    ensures
        lists_shapes(shapes_in_order(n), n),
{
    lemma_shapes(n);
    let list = lemma_in_order(shapes(n));
    assert(lists_shapes(list, n));
}

} // verus!
