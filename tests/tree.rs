use arena_bst::cursor::NodeTraverse;
use arena_bst::traversal::{post_order, pre_order};
use arena_bst::tree::{Node, Tree};

fn build(values: &[i32]) -> Tree {
    let mut t = Tree::new();
    for v in values {
        t.insert(*v);
    }
    t
}

fn joined(values: &[i32]) -> String {
    values.iter().map(|x| x.to_string()).collect::<Vec<String>>().join(" ")
}

/// Collects the values of the subtree at `h`, walking it recursively.
fn subtree_values(t: &Tree, h: usize, out: &mut Vec<i32>) {
    let n = &t.nodes[h];
    out.push(n.data);
    if let Some(l) = n.left {
        subtree_values(t, l, out);
    }
    if let Some(r) = n.right {
        subtree_values(t, r, out);
    }
}

fn assert_search_order(t: &Tree) {
    for (h, n) in t.nodes.iter().enumerate() {
        if let Some(l) = n.left {
            assert!(l > h);
            let mut below = Vec::new();
            subtree_values(t, l, &mut below);
            assert!(below.iter().all(|v| *v < n.data));
        }
        if let Some(r) = n.right {
            assert!(r > h);
            let mut below = Vec::new();
            subtree_values(t, r, &mut below);
            assert!(below.iter().all(|v| *v >= n.data));
        }
    }
}

#[test]
fn test_tree_works() {
    let mut t = Tree::new();

    t.insert(3);
    t.insert(2);
    t.insert(1);
    t.insert(4);

    let l1 = t.nodes.get(t.root).unwrap().left.unwrap();
    let l2 = t.nodes.get(l1).unwrap().left.unwrap();
    let node_1 = t.nodes.get(l2).unwrap();

    assert_eq!(node_1.data, 1);
}

#[test]
fn test_traverse() {
    let mut t = Tree::new();

    t.insert(2);
    t.insert(4);
    t.insert(6);
    t.insert(3);
    t.insert(1);

    let mut traverse = t.traverse();

    traverse.go_right();
    traverse.go_left();

    assert_eq!(traverse.data(), 3);
}

#[test]
fn test_complex_tree() {
    let mut t = Tree::new();

    let input = [1, 14, 3, 7, 4, 5, 15, 6, 13, 10, 11, 2, 12, 8, 9];

    for d in input {
        t.insert(d);
    }

    let mut trav = t.traverse();
    trav.go_right();
    assert_eq!(trav.data(), 14);
    trav.go_left();
    assert_eq!(trav.data(), 3);
    trav.go_right();
    assert_eq!(trav.data(), 7);
    trav.go_right();
    assert_eq!(trav.data(), 13);
}

#[test]
fn post_order_of_small_tree() {
    let t = build(&[3, 2, 1, 4]);
    let out = post_order(&t);
    assert_eq!(out, vec![1, 2, 4, 3]);
    assert_eq!(joined(&out), "1 2 4 3");
}

#[test]
fn pre_order_of_small_tree() {
    let t = build(&[3, 2, 1, 4]);
    let out = pre_order(&t);
    assert_eq!(out, vec![3, 2, 1, 4]);
    assert_eq!(joined(&out), "3 2 1 4");
}

#[test]
fn single_value_orders() {
    let t = build(&[42]);
    assert_eq!(pre_order(&t), vec![42]);
    assert_eq!(post_order(&t), vec![42]);
    assert_eq!(t.root, 0);
}

#[test]
fn orders_of_complex_tree() {
    let t = build(&[1, 14, 3, 7, 4, 5, 15, 6, 13, 10, 11, 2, 12, 8, 9]);
    assert_eq!(
        pre_order(&t),
        vec![1, 14, 3, 2, 7, 4, 5, 6, 13, 10, 8, 9, 11, 12, 15]
    );
    assert_eq!(
        post_order(&t),
        vec![2, 6, 5, 4, 9, 8, 12, 11, 10, 13, 7, 3, 15, 14, 1]
    );
}

#[test]
fn orders_of_right_chain() {
    let t = build(&[1, 2, 3, 4]);
    assert_eq!(pre_order(&t), vec![1, 2, 3, 4]);
    assert_eq!(post_order(&t), vec![4, 3, 2, 1]);
}

#[test]
fn orders_of_left_chain() {
    let t = build(&[4, 3, 2, 1]);
    assert_eq!(pre_order(&t), vec![4, 3, 2, 1]);
    assert_eq!(post_order(&t), vec![1, 2, 3, 4]);
}

#[test]
fn traversals_visit_each_value_once() {
    let input = [5, 3, 8, 3, 5, 1, 9, 8, -2, 7, 5, 0];
    let t = build(&input);
    let mut expected = input.to_vec();
    expected.sort();
    let mut pre = pre_order(&t);
    let mut post = post_order(&t);
    assert_eq!(pre.len(), input.len());
    assert_eq!(post.len(), input.len());
    pre.sort();
    post.sort();
    assert_eq!(pre, expected);
    assert_eq!(post, expected);
}

#[test]
fn search_order_holds_after_each_insert() {
    let input = [50, 20, 70, 20, 10, 60, 80, 70, 65, -5, 50, 30];
    let mut t = Tree::new();
    for v in input {
        t.insert(v);
        assert_search_order(&t);
    }
    assert_eq!(t.nodes.len(), input.len());
}

#[test]
fn equal_values_go_right() {
    let t = build(&[5, 5, 5]);
    assert_eq!(t.nodes[0].left, None);
    assert_eq!(t.nodes[0].right, Some(1));
    assert_eq!(t.nodes[1].left, None);
    assert_eq!(t.nodes[1].right, Some(2));
    assert_eq!(pre_order(&t), vec![5, 5, 5]);
    assert_eq!(post_order(&t), vec![5, 5, 5]);
}

#[test]
fn insert_appends_and_links_one_node() {
    let mut t = build(&[10, 5, 15]);
    t.insert(7);
    assert_eq!(t.nodes.len(), 4);
    assert_eq!(t.nodes[3].data, 7);
    assert_eq!(t.nodes[3].left, None);
    assert_eq!(t.nodes[3].right, None);
    assert_eq!(t.nodes[1].right, Some(3));
    assert_eq!(t.nodes[0].left, Some(1));
    assert_eq!(t.nodes[0].right, Some(2));
    assert_eq!(t.nodes[2].left, None);
}

#[test]
fn extreme_values() {
    let t = build(&[0, i32::MAX, i32::MIN, i32::MAX, i32::MIN]);
    assert_eq!(pre_order(&t), vec![0, i32::MIN, i32::MIN, i32::MAX, i32::MAX]);
    assert_eq!(post_order(&t), vec![i32::MIN, i32::MIN, i32::MAX, i32::MAX, 0]);
}

#[test]
fn goto_then_data_ignores_prior_position() {
    let t = build(&[3, 2, 1, 4]);
    let mut a = t.traverse();
    let mut b = t.traverse();
    b.go_left();
    b.go_left();
    for h in 0..t.nodes.len() {
        a.goto(h);
        b.goto(h);
        assert_eq!(a.data(), b.data());
        assert_eq!(a.data(), t.nodes[h].data);
    }
    a.goto(2);
    assert_eq!(a.data(), 1);
}

#[test]
fn cursor_children_and_cur() {
    let t = build(&[3, 2, 1, 4]);
    let mut c = t.traverse();
    assert_eq!(c.cursor, 0);
    assert_eq!(c.left(), Some(1));
    assert_eq!(c.right(), Some(3));
    c.go_right();
    assert_eq!(c.data(), 4);
    assert_eq!(c.left(), None);
    assert_eq!(c.right(), None);
    assert_eq!(c.cur().map(|n| n.data), Some(4));
    let off = NodeTraverse { tree: &t, cursor: 9 };
    assert!(off.cur().is_none());
}

#[test]
fn new_node_has_no_children() {
    let n = Node::new(-7);
    assert_eq!(n.data, -7);
    assert_eq!(n.left, None);
    assert_eq!(n.right, None);
    let t = Tree::new();
    assert!(t.nodes.is_empty());
}
