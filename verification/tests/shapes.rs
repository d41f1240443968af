use arith_search::shape::{Node, Placement};
use std::collections::BTreeSet;

fn leaf() -> Box<Node> {
    Box::new(Node::Leaf)
}

fn node(left: Box<Node>, right: Box<Node>) -> Box<Node> {
    Box::new(Node::Node { left, right })
}

#[test]
fn get_all_tree_test() {
    let trees = Node::get_all_tree(4)
        .into_iter()
        .collect::<BTreeSet<_>>();
    assert_eq!(
        trees,
        vec![
            Node::Node {
                left: Box::new(Node::Leaf),
                right: Box::new(Node::Node {
                    left: Box::new(Node::Leaf),
                    right: Box::new(Node::Node {
                        left: Box::new(Node::Leaf),
                        right: Box::new(Node::Leaf),
                    }),
                })
            },
            Node::Node {
                left: Box::new(Node::Leaf),
                right: Box::new(Node::Node {
                    left: Box::new(Node::Leaf),
                    right: Box::new(Node::Node {
                        left: Box::new(Node::Leaf),
                        right: Box::new(Node::Leaf),
                    }),
                }),
            },
            Node::Node {
                left: Box::new(Node::Leaf),
                right: Box::new(Node::Node {
                    left: Box::new(Node::Node {
                        left: Box::new(Node::Leaf),
                        right: Box::new(Node::Leaf),
                    }),
                    right: Box::new(Node::Leaf),
                }),
            },
            Node::Node {
                left: Box::new(Node::Node {
                    left: Box::new(Node::Leaf),
                    right: Box::new(Node::Leaf),
                }),
                right: Box::new(Node::Node {
                    left: Box::new(Node::Leaf),
                    right: Box::new(Node::Leaf),
                }),
            },
            Node::Node {
                left: Box::new(Node::Node {
                    left: Box::new(Node::Leaf),
                    right: Box::new(Node::Node {
                        left: Box::new(Node::Leaf),
                        right: Box::new(Node::Leaf),
                    }),
                }),
                right: Box::new(Node::Leaf),
            },
            Node::Node {
                left: Box::new(Node::Node {
                    left: Box::new(Node::Node {
                        left: Box::new(Node::Leaf),
                        right: Box::new(Node::Leaf),
                    }),
                    right: Box::new(Node::Leaf),
                }),
                right: Box::new(Node::Leaf),
            },
        ]
        .into_iter()
        .collect::<BTreeSet<_>>()
    );
}

#[test]
fn shapes_come_in_the_order_of_the_derived_comparison() {
    for n in 2..8 {
        let shapes = Node::get_all_tree(n);
        let ordered: Vec<Node> = shapes.iter().cloned().collect::<BTreeSet<_>>().into_iter().collect();
        assert_eq!(shapes, ordered);
    }
}

#[test]
fn shape_counts_are_catalan_numbers() {
    let catalan = [1usize, 1, 2, 5, 14, 42, 132, 429, 1430];
    for n in 2..=9 {
        let shapes = Node::get_all_tree(n);
        assert_eq!(shapes.len(), catalan[n - 1]);
        for shape in &shapes {
            assert_eq!(shape.count_leaf(), n);
        }
    }
}

#[test]
fn two_leaves_make_one_shape() {
    assert_eq!(Node::get_all_tree(2), vec![*node(leaf(), leaf())]);
}

#[test]
fn three_leaves_make_two_shapes_in_order() {
    assert_eq!(
        Node::get_all_tree(3),
        vec![
            *node(leaf(), node(leaf(), leaf())),
            *node(node(leaf(), leaf()), leaf()),
        ]
    );
}

#[test]
fn expanding_replaces_each_leaf_in_turn() {
    let shape = node(leaf(), node(leaf(), leaf()));
    assert_eq!(
        shape.map_leaf_to_node(),
        vec![
            *node(node(leaf(), leaf()), node(leaf(), leaf())),
            *node(leaf(), node(node(leaf(), leaf()), leaf())),
            *node(leaf(), node(leaf(), node(leaf(), leaf()))),
        ]
    );
    assert_eq!(Node::Leaf.map_leaf_to_node(), vec![*node(leaf(), leaf())]);
}

#[test]
fn count_leaf_counts() {
    assert_eq!(Node::Leaf.count_leaf(), 1);
    assert_eq!(node(node(leaf(), leaf()), node(leaf(), leaf())).count_leaf(), 4);
}

#[test]
fn compare_orders_as_the_derived_comparison() {
    let shapes: Vec<Node> = (2..6)
        .flat_map(Node::get_all_tree)
        .chain(std::iter::once(Node::Leaf))
        .collect();
    for a in &shapes {
        for b in &shapes {
            let expected = match a.cmp(b) {
                std::cmp::Ordering::Less => Placement::Before,
                std::cmp::Ordering::Equal => Placement::Same,
                std::cmp::Ordering::Greater => Placement::After,
            };
            assert_eq!(a.compare(b), expected);
        }
    }
}

#[test]
fn a_copy_is_the_same_shape() {
    let shape = node(node(leaf(), leaf()), node(leaf(), node(leaf(), leaf())));
    assert_eq!(shape.clone(), shape);
}
