use bst_rs::{HeapNode, Node};

fn node_graph(values: &[i32]) -> HeapNode<i32> {
    let mut root = None;
    for value in values {
        let _ = Node::iterative_insert(&mut root, *value);
    }
    root
}

fn node_pre_order(root: &HeapNode<i32>) -> Vec<i32> {
    Node::iterative_pre_order_vec(root).into_iter().copied().collect()
}

fn node_branch(left: HeapNode<i32>, value: i32, right: HeapNode<i32>) -> HeapNode<i32> {
    Some(Box::new(Node { value, left, right }))
}

#[test]
fn node_new_has_no_children() {
    let node = Node::new(7);
    assert_eq!(node.value, 7);
    assert!(node.left.is_none());
    assert!(node.right.is_none());
}

#[test]
fn node_iterative_insert_reports_duplicates() {
    let mut root = None;
    assert_eq!(Node::iterative_insert(&mut root, 5), Ok(()));
    assert_eq!(Node::iterative_insert(&mut root, 3), Ok(()));
    assert_eq!(Node::iterative_insert(&mut root, 8), Ok(()));
    assert_eq!(Node::iterative_insert(&mut root, 3), Err(()));
    assert_eq!(Node::iterative_insert(&mut root, 5), Err(()));
    assert_eq!(node_pre_order(&root), vec![5, 3, 8]);
}

#[test]
fn node_recursive_insert_reports_duplicates() {
    let mut node = Node::new(5);
    assert_eq!(node.recursive_insert(3), Ok(()));
    assert_eq!(node.recursive_insert(8), Ok(()));
    assert_eq!(node.recursive_insert(4), Ok(()));
    assert_eq!(node.recursive_insert(3), Err(()));
    assert_eq!(node.recursive_insert(5), Err(()));
    let root = Some(Box::new(node));
    assert_eq!(node_pre_order(&root), vec![5, 3, 4, 8]);
}

#[test]
fn node_insert_engines_build_the_same_graph() {
    let values = [50, 30, 70, 20, 40, 60, 80, 30, 45, 65, 10];
    let iterative = node_graph(&values);
    let mut node = Node::new(values[0]);
    for value in &values[1..] {
        let _ = node.recursive_insert(*value);
    }
    let recursive = Some(Box::new(node));
    assert_eq!(node_pre_order(&iterative), node_pre_order(&recursive));
    assert_eq!(
        Node::iterative_in_order_vec(&iterative),
        Node::iterative_in_order_vec(&recursive)
    );
}

#[test]
fn node_contains_in_both_engines() {
    let root = node_graph(&[5, 3, 8, 1, 4]);
    for value in [5, 3, 8, 1, 4] {
        assert!(Node::iterative_contains(&root, &value));
        assert!(root.as_ref().unwrap().recursive_contains(&value));
    }
    for value in [0, 2, 6, 9] {
        assert!(!Node::iterative_contains(&root, &value));
        assert!(!root.as_ref().unwrap().recursive_contains(&value));
    }
    assert!(!Node::iterative_contains(&None, &1));
}

#[test]
fn node_retrieve_in_both_engines() {
    let root = node_graph(&[5, 3, 8]);
    assert_eq!(Node::iterative_retrieve(&root, &3), Some(&3));
    assert_eq!(Node::iterative_retrieve(&root, &9), None);
    assert_eq!(root.as_ref().unwrap().recursive_retrieve(&8), Some(&8));
    assert_eq!(root.as_ref().unwrap().recursive_retrieve(&4), None);
    assert_eq!(Node::iterative_retrieve(&None, &4), None);
}

#[test]
fn node_retrieve_as_mut_in_both_engines() {
    let mut root = node_graph(&[5, 3, 8]);
    *Node::iterative_retrieve_as_mut(&mut root, &3).unwrap() = 4;
    assert_eq!(node_pre_order(&root), vec![5, 4, 8]);
    *root.as_mut().unwrap().recursive_retrieve_as_mut(&8).unwrap() = 9;
    assert_eq!(node_pre_order(&root), vec![5, 4, 9]);
    assert_eq!(Node::iterative_retrieve_as_mut(&mut root, &3), None);
    assert_eq!(root.as_mut().unwrap().recursive_retrieve_as_mut(&8), None);
    assert_eq!(node_pre_order(&root), vec![5, 4, 9]);
}

#[test]
fn node_height_in_both_engines() {
    assert_eq!(Node::<i32>::recursive_height(&None), -1);
    let single = node_graph(&[1]);
    assert_eq!(Node::recursive_height(&single), 0);
    assert_eq!(Node::iterative_height(&single), 0);
    let full = node_graph(&[4, 2, 6, 1, 3, 5, 7]);
    assert_eq!(Node::recursive_height(&full), 2);
    assert_eq!(Node::iterative_height(&full), 2);
    let uneven = node_graph(&[8, 3, 10, 1, 6, 14, 4, 7, 13]);
    assert_eq!(Node::recursive_height(&uneven), 3);
    assert_eq!(Node::iterative_height(&uneven), 3);
    let spine = node_graph(&[1, 2, 3, 4, 5]);
    assert_eq!(Node::recursive_height(&spine), 4);
    assert_eq!(Node::iterative_height(&spine), 4);
}

#[test]
fn node_remove_in_both_engines() {
    let values = [50, 30, 70, 20, 40, 60, 80, 35, 45, 65];
    for target in [50, 30, 70, 20, 40, 60, 80, 35, 45, 65, 99, 0] {
        let mut iterative = node_graph(&values);
        let mut recursive = node_graph(&values);
        let expected = if values.contains(&target) { Ok(()) } else { Err(()) };
        assert_eq!(Node::iterative_remove(&mut iterative, &target), expected);
        assert_eq!(Node::recursive_remove(&mut recursive, &target), expected);
        assert_eq!(node_pre_order(&iterative), node_pre_order(&recursive));
        let mut sorted: Vec<i32> = values.iter().copied().filter(|v| *v != target).collect();
        sorted.sort();
        let listed: Vec<i32> =
            Node::iterative_in_order_vec(&iterative).into_iter().copied().collect();
        assert_eq!(listed, sorted);
    }
}

#[test]
fn node_remove_root_with_two_children_takes_successor() {
    let mut root = node_graph(&[50, 30, 70, 60, 80, 65]);
    assert_eq!(Node::iterative_remove(&mut root, &50), Ok(()));
    assert_eq!(node_pre_order(&root), vec![60, 30, 70, 65, 80]);
    let mut root = node_graph(&[50, 30, 70, 60, 80, 65]);
    assert_eq!(Node::recursive_remove(&mut root, &50), Ok(()));
    assert_eq!(node_pre_order(&root), vec![60, 30, 70, 65, 80]);
}

#[test]
fn node_remove_from_empty_fails() {
    let mut root: HeapNode<i32> = None;
    assert_eq!(Node::iterative_remove(&mut root, &1), Err(()));
    assert_eq!(Node::recursive_remove(&mut root, &1), Err(()));
    assert!(root.is_none());
}

#[test]
fn node_min_and_max_in_both_engines() {
    let root = node_graph(&[50, 30, 70, 20, 40, 60, 80]);
    assert_eq!(Node::iterative_min(&root), Some(&20));
    assert_eq!(Node::iterative_max(&root), Some(&80));
    assert_eq!(root.as_ref().unwrap().recursive_min(), Some(&20));
    assert_eq!(root.as_ref().unwrap().recursive_max(), Some(&80));
    assert_eq!(Node::<i32>::iterative_min(&None), None);
    assert_eq!(Node::<i32>::iterative_max(&None), None);
    let single = node_graph(&[1]);
    assert_eq!(single.as_ref().unwrap().recursive_min(), Some(&1));
    assert_eq!(single.as_ref().unwrap().recursive_max(), Some(&1));
}

#[test]
fn node_remove_min_and_max_in_both_engines() {
    let values = [50, 30, 70, 20, 25, 80, 75];
    let mut iterative = node_graph(&values);
    let mut recursive = node_graph(&values);
    assert_eq!(Node::iterative_remove_min(&mut iterative), Some(20));
    assert_eq!(Node::recursive_remove_min(&mut recursive), Some(20));
    assert_eq!(node_pre_order(&iterative), vec![50, 30, 25, 70, 80, 75]);
    assert_eq!(node_pre_order(&recursive), vec![50, 30, 25, 70, 80, 75]);
    assert_eq!(Node::iterative_remove_max(&mut iterative), Some(80));
    assert_eq!(Node::recursive_remove_max(&mut recursive), Some(80));
    assert_eq!(node_pre_order(&iterative), vec![50, 30, 25, 70, 75]);
    assert_eq!(node_pre_order(&recursive), vec![50, 30, 25, 70, 75]);
    let mut empty: HeapNode<i32> = None;
    assert_eq!(Node::iterative_remove_min(&mut empty), None);
    assert_eq!(Node::iterative_remove_max(&mut empty), None);
    let mut single = node_graph(&[1]);
    assert_eq!(Node::recursive_remove_min(&mut single), Some(1));
    assert!(single.is_none());
    let mut single = node_graph(&[1]);
    assert_eq!(Node::recursive_remove_max(&mut single), Some(1));
    assert!(single.is_none());
}

#[test]
fn node_borrowing_traversals_on_a_graph_that_is_not_in_search_order() {
    // traversals follow the shape alone
    let root = node_branch(
        node_branch(node_branch(None, 9, None), 1, node_branch(None, 8, None)),
        5,
        node_branch(None, 2, node_branch(node_branch(None, 7, None), 3, None)),
    );
    let pre = vec![&5, &1, &9, &8, &2, &3, &7];
    let ino = vec![&9, &1, &8, &5, &2, &7, &3];
    let post = vec![&9, &8, &1, &7, &3, &2, &5];
    let level = vec![&5, &1, &2, &9, &8, &3, &7];
    assert_eq!(Node::iterative_pre_order_vec(&root), pre);
    assert_eq!(Node::iterative_in_order_vec(&root), ino);
    assert_eq!(Node::iterative_post_order_vec(&root), post);
    assert_eq!(Node::iterative_level_order_vec(&root), level);
    let mut elements = Vec::new();
    Node::recursive_pre_order_vec(&root, &mut elements);
    assert_eq!(elements, pre);
    let mut elements = Vec::new();
    Node::recursive_in_order_vec(&root, &mut elements);
    assert_eq!(elements, ino);
    let mut elements = Vec::new();
    Node::recursive_post_order_vec(&root, &mut elements);
    assert_eq!(elements, post);
    let mut elements = Vec::new();
    Node::recursive_level_order_vec(&root, &mut elements);
    assert_eq!(elements, level);
}

#[test]
fn node_recursive_traversals_append() {
    let root = node_graph(&[2, 1, 3]);
    let zero = 0;
    let mut elements = vec![&zero];
    Node::recursive_pre_order_vec(&root, &mut elements);
    Node::recursive_in_order_vec(&root, &mut elements);
    Node::recursive_post_order_vec(&root, &mut elements);
    Node::recursive_level_order_vec(&root, &mut elements);
    assert_eq!(elements, vec![&0, &2, &1, &3, &1, &2, &3, &1, &3, &2, &2, &1, &3]);
    let mut owned = vec![0];
    Node::recursive_consume_pre_order_vec(node_graph(&[2, 1, 3]), &mut owned);
    Node::recursive_consume_in_order_vec(node_graph(&[2, 1, 3]), &mut owned);
    Node::recursive_consume_post_order_vec(node_graph(&[2, 1, 3]), &mut owned);
    Node::recursive_consume_level_order_vec(node_graph(&[2, 1, 3]), &mut owned);
    assert_eq!(owned, vec![0, 2, 1, 3, 1, 2, 3, 1, 3, 2, 2, 1, 3]);
}

#[test]
fn node_recursive_current_level_numbers_levels_from_one() {
    let root = node_graph(&[8, 3, 10, 1, 6, 14, 4, 7, 13]);
    let mut elements = Vec::new();
    Node::recursive_current_level(&root, &mut elements, 0);
    assert!(elements.is_empty());
    Node::recursive_current_level(&root, &mut elements, -3);
    assert!(elements.is_empty());
    Node::recursive_current_level(&root, &mut elements, 1);
    assert_eq!(elements, vec![&8]);
    let mut elements = Vec::new();
    Node::recursive_current_level(&root, &mut elements, 3);
    assert_eq!(elements, vec![&1, &6, &14]);
    let mut elements = Vec::new();
    Node::recursive_current_level(&root, &mut elements, 4);
    assert_eq!(elements, vec![&4, &7, &13]);
    let mut elements = Vec::new();
    Node::recursive_current_level(&root, &mut elements, 5);
    assert!(elements.is_empty());
    Node::recursive_current_level(&None, &mut elements, 1);
    assert!(elements.is_empty());
}

#[test]
fn node_consuming_traversals_in_both_engines() {
    let values = [8, 3, 10, 1, 6, 14, 4, 7, 13];
    assert_eq!(
        Node::iterative_consume_pre_order_vec(node_graph(&values)),
        vec![8, 3, 1, 6, 4, 7, 10, 14, 13]
    );
    assert_eq!(
        Node::iterative_consume_in_order_vec(node_graph(&values)),
        vec![1, 3, 4, 6, 7, 8, 10, 13, 14]
    );
    assert_eq!(
        Node::iterative_consume_post_order_vec(node_graph(&values)),
        vec![1, 4, 7, 6, 3, 13, 14, 10, 8]
    );
    assert_eq!(
        Node::iterative_consume_level_order_vec(node_graph(&values)),
        vec![8, 3, 10, 1, 6, 14, 4, 7, 13]
    );
    let mut elements = Vec::new();
    Node::recursive_consume_pre_order_vec(node_graph(&values), &mut elements);
    assert_eq!(elements, vec![8, 3, 1, 6, 4, 7, 10, 14, 13]);
    let mut elements = Vec::new();
    Node::recursive_consume_in_order_vec(node_graph(&values), &mut elements);
    assert_eq!(elements, vec![1, 3, 4, 6, 7, 8, 10, 13, 14]);
    let mut elements = Vec::new();
    Node::recursive_consume_post_order_vec(node_graph(&values), &mut elements);
    assert_eq!(elements, vec![1, 4, 7, 6, 3, 13, 14, 10, 8]);
    let mut elements = Vec::new();
    Node::recursive_consume_level_order_vec(node_graph(&values), &mut elements);
    assert_eq!(elements, vec![8, 3, 10, 1, 6, 14, 4, 7, 13]);
}

#[test]
fn node_consuming_traversals_of_the_empty_graph() {
    assert!(Node::<i32>::iterative_consume_pre_order_vec(None).is_empty());
    assert!(Node::<i32>::iterative_consume_in_order_vec(None).is_empty());
    assert!(Node::<i32>::iterative_consume_post_order_vec(None).is_empty());
    assert!(Node::<i32>::iterative_consume_level_order_vec(None).is_empty());
    let mut elements: Vec<i32> = Vec::new();
    Node::recursive_consume_level_order_vec(None, &mut elements);
    Node::recursive_consume_pre_order_vec(None, &mut elements);
    assert!(elements.is_empty());
    assert!(Node::<i32>::iterative_pre_order_vec(&None).is_empty());
    assert!(Node::<i32>::iterative_in_order_vec(&None).is_empty());
    assert!(Node::<i32>::iterative_post_order_vec(&None).is_empty());
    assert!(Node::<i32>::iterative_level_order_vec(&None).is_empty());
}

#[test]
fn node_deep_spine_is_no_trouble_for_the_iterative_engine() {
    let mut root = None;
    for value in 0..20000 {
        let _ = Node::iterative_insert(&mut root, value);
    }
    assert_eq!(Node::iterative_height(&root), 19999);
    assert!(Node::iterative_contains(&root, &19999));
    assert_eq!(Node::iterative_max(&root), Some(&19999));
    assert_eq!(Node::iterative_in_order_vec(&root).len(), 20000);
    assert_eq!(Node::iterative_post_order_vec(&root).len(), 20000);
    assert_eq!(Node::iterative_remove(&mut root, &10000), Ok(()));
    let values = Node::iterative_consume_level_order_vec(root);
    assert_eq!(values.len(), 19999);
    assert_eq!(values[10000], 10001);
}
