use bst_rs::{BinarySearchTree, IterativeBST};

fn iterative_filled(values: &[i32]) -> IterativeBST<i32> {
    let mut bst = IterativeBST::new();
    for value in values {
        bst.insert(*value);
    }
    bst
}

#[test]
fn iterative_new_tree_is_empty() {
    let bst: IterativeBST<i32> = IterativeBST::new();
    assert!(bst.is_empty());
    assert!(!bst.is_not_empty());
    assert_eq!(bst.size(), 0);
}

#[test]
fn iterative_empty_tree_has_nothing() {
    let mut bst: IterativeBST<i32> = IterativeBST::new();
    assert_eq!(bst.height(), None);
    assert_eq!(bst.min(), None);
    assert_eq!(bst.max(), None);
    assert_eq!(bst.remove_min(), None);
    assert_eq!(bst.remove_max(), None);
    assert_eq!(bst.size(), 0);
    assert!(!bst.contains(&1));
    assert_eq!(bst.retrieve(&1), None);
    assert_eq!(bst.retrieve_as_mut(&1), None);
    bst.remove(&1);
    assert_eq!(bst.size(), 0);
    assert!(bst.pre_order_vec().is_empty());
    assert!(bst.in_order_vec().is_empty());
    assert!(bst.asc_order_vec().is_empty());
    assert!(bst.post_order_vec().is_empty());
    assert!(bst.level_order_vec().is_empty());
    assert_eq!(bst.pre_order_iter().next(), None);
    assert_eq!(bst.level_order_iter().next(), None);
}

#[test]
fn iterative_empty_tree_consumed_gives_nothing() {
    assert_eq!(IterativeBST::<i32>::new().into_pre_order_iter().next(), None);
    assert_eq!(IterativeBST::<i32>::new().into_in_order_iter().next(), None);
    assert_eq!(IterativeBST::<i32>::new().into_asc_order_iter().next(), None);
    assert_eq!(IterativeBST::<i32>::new().into_post_order_iter().next(), None);
    assert_eq!(IterativeBST::<i32>::new().into_level_order_iter().next(), None);
}

#[test]
fn iterative_size_counts_nodes() {
    let bst = iterative_filled(&[5, 10, 3]);
    assert_eq!(bst.size(), 3);
    assert!(bst.is_not_empty());
    assert!(!bst.is_empty());
}

#[test]
fn iterative_insert_says_whether_it_added() {
    let mut bst = IterativeBST::new();
    assert!(bst.insert(10));
    assert!(!bst.insert(10));
    assert!(bst.insert(5));
    assert!(bst.insert(2));
    assert!(bst.insert(15));
    assert!(bst.insert(25));
    assert!(!bst.insert(2));
    assert_eq!(bst.size(), 5);
}

#[test]
fn iterative_duplicate_is_rejected_and_absent_remove_is_no_op() {
    let mut bst = iterative_filled(&[10, 10, 5, 2, 15, 25]);
    assert_eq!(bst.size(), 5);
    bst.remove(&10);
    assert_eq!(bst.size(), 4);
    bst.remove(&50);
    assert_eq!(bst.size(), 4);
    assert_eq!(bst.pre_order_vec(), vec![&15, &5, &2, &25]);
    assert_eq!(bst.in_order_vec(), vec![&2, &5, &15, &25]);
    assert_eq!(bst.post_order_vec(), vec![&2, &5, &25, &15]);
    assert_eq!(bst.level_order_vec(), vec![&15, &5, &25, &2]);
    assert_eq!(bst.height(), Some(2));
    assert_eq!(bst.min(), Some(&2));
    assert_eq!(bst.max(), Some(&25));
}

#[test]
fn iterative_contains_finds_what_was_inserted() {
    let bst = iterative_filled(&[5, 2, 7]);
    assert!(bst.contains(&5));
    assert!(bst.contains(&2));
    assert!(bst.contains(&7));
    assert!(!bst.contains(&10));
    assert!(!bst.contains(&0));
}

#[test]
fn iterative_remove_then_contains_is_false() {
    let mut bst = iterative_filled(&[5, 2, 7]);
    assert_eq!(bst.size(), 3);
    bst.remove(&5);
    assert!(!bst.contains(&5));
    assert_eq!(bst.size(), 2);
    bst.remove(&10);
    assert_eq!(bst.size(), 2);
    assert_eq!(bst.in_order_vec(), vec![&2, &7]);
}

#[test]
fn iterative_remove_leaf() {
    let mut bst = iterative_filled(&[4, 2, 6, 1, 3, 5, 7]);
    bst.remove(&1);
    assert_eq!(bst.pre_order_vec(), vec![&4, &2, &3, &6, &5, &7]);
    assert_eq!(bst.size(), 6);
}

#[test]
fn iterative_remove_node_with_left_child_only() {
    let mut bst = iterative_filled(&[10, 5, 2]);
    bst.remove(&5);
    assert_eq!(bst.pre_order_vec(), vec![&10, &2]);
    assert_eq!(bst.size(), 2);
}

#[test]
fn iterative_remove_node_with_right_child_only() {
    let mut bst = iterative_filled(&[10, 5, 7]);
    bst.remove(&5);
    assert_eq!(bst.pre_order_vec(), vec![&10, &7]);
    assert_eq!(bst.size(), 2);
}

#[test]
fn iterative_remove_node_with_two_children() {
    let mut bst = iterative_filled(&[10, 5, 15, 12, 20]);
    bst.remove(&10);
    assert_eq!(bst.in_order_vec(), vec![&5, &12, &15, &20]);
    assert_eq!(bst.pre_order_vec(), vec![&12, &5, &15, &20]);
    assert_eq!(bst.level_order_vec(), vec![&12, &5, &15, &20]);
    assert_eq!(bst.size(), 4);
}

#[test]
fn iterative_remove_two_children_successor_has_right_child() {
    let mut bst = iterative_filled(&[10, 5, 20, 15, 25, 17]);
    bst.remove(&10);
    assert_eq!(bst.pre_order_vec(), vec![&15, &5, &20, &17, &25]);
    assert_eq!(bst.in_order_vec(), vec![&5, &15, &17, &20, &25]);
}

#[test]
fn iterative_remove_last_node_empties_the_tree() {
    let mut bst = iterative_filled(&[1]);
    bst.remove(&1);
    assert!(bst.is_empty());
    assert_eq!(bst.height(), None);
    assert!(bst.in_order_vec().is_empty());
}

#[test]
fn iterative_retrieve_returns_the_stored_value() {
    let bst = iterative_filled(&[5, 2, 7]);
    assert_eq!(bst.retrieve(&5), Some(&5));
    assert_eq!(bst.retrieve(&7), Some(&7));
    assert_eq!(bst.retrieve(&10), None);
}

#[test]
fn iterative_retrieve_as_mut_writes_into_the_tree() {
    let mut bst = iterative_filled(&[10, 5]);
    let found = bst.retrieve_as_mut(&5);
    assert_eq!(found, Some(&mut 5));
    *found.unwrap() = 2;
    assert_eq!(bst.retrieve_as_mut(&5), None);
    assert_eq!(bst.retrieve_as_mut(&2), Some(&mut 2));
    assert_eq!(bst.size(), 2);
    assert_eq!(bst.in_order_vec(), vec![&2, &10]);
}

#[test]
fn iterative_retrieve_as_mut_can_break_the_order() {
    let mut bst = iterative_filled(&[10, 5, 15]);
    *bst.retrieve_as_mut(&5).unwrap() = 100;
    assert_eq!(bst.pre_order_vec(), vec![&10, &100, &15]);
    assert_eq!(bst.in_order_vec(), vec![&100, &10, &15]);
    assert_eq!(bst.size(), 3);
    assert!(!bst.contains(&100));
}

#[test]
fn iterative_height_counts_edges() {
    let mut bst = IterativeBST::new();
    assert_eq!(bst.height(), None);
    bst.insert(4);
    assert_eq!(bst.height(), Some(0));
    bst.insert(6);
    assert_eq!(bst.height(), Some(1));
    bst.insert(2);
    assert_eq!(bst.height(), Some(1));
    bst.insert(7);
    bst.insert(5);
    bst.insert(3);
    bst.insert(1);
    assert_eq!(bst.height(), Some(2));
}

#[test]
fn iterative_height_of_degenerate_tree() {
    let bst = iterative_filled(&[1, 2, 3, 4, 5, 6]);
    assert_eq!(bst.height(), Some(5));
    assert_eq!(bst.level_order_vec(), vec![&1, &2, &3, &4, &5, &6]);
    assert_eq!(bst.post_order_vec(), vec![&6, &5, &4, &3, &2, &1]);
    let bst = iterative_filled(&[6, 5, 4, 3, 2, 1]);
    assert_eq!(bst.height(), Some(5));
    assert_eq!(bst.pre_order_vec(), vec![&6, &5, &4, &3, &2, &1]);
    assert_eq!(bst.in_order_vec(), vec![&1, &2, &3, &4, &5, &6]);
}

#[test]
fn iterative_min_and_max() {
    let mut bst = IterativeBST::new();
    assert_eq!(bst.min(), None);
    assert_eq!(bst.max(), None);
    bst.insert(5);
    assert_eq!(bst.min(), Some(&5));
    assert_eq!(bst.max(), Some(&5));
    bst.insert(2);
    bst.insert(10);
    assert_eq!(bst.min(), Some(&2));
    assert_eq!(bst.max(), Some(&10));
}

#[test]
fn iterative_remove_min_takes_the_least() {
    let mut bst = IterativeBST::new();
    assert_eq!(bst.remove_min(), None);
    bst.insert(2);
    bst.insert(5);
    bst.insert(10);
    assert_eq!(bst.size(), 3);
    assert_eq!(bst.remove_min(), Some(2));
    assert_eq!(bst.size(), 2);
    assert_eq!(bst.remove_min(), Some(5));
    assert_eq!(bst.remove_min(), Some(10));
    assert_eq!(bst.remove_min(), None);
    assert_eq!(bst.size(), 0);
}

#[test]
fn iterative_remove_max_takes_the_greatest() {
    let mut bst = IterativeBST::new();
    assert_eq!(bst.remove_max(), None);
    bst.insert(2);
    bst.insert(5);
    bst.insert(10);
    assert_eq!(bst.size(), 3);
    assert_eq!(bst.remove_max(), Some(10));
    assert_eq!(bst.size(), 2);
    assert_eq!(bst.remove_max(), Some(5));
    assert_eq!(bst.remove_max(), Some(2));
    assert_eq!(bst.remove_max(), None);
    assert_eq!(bst.size(), 0);
}

#[test]
fn iterative_remove_min_reattaches_right_child() {
    let mut bst = iterative_filled(&[10, 2, 5, 3, 7]);
    assert_eq!(bst.remove_min(), Some(2));
    assert_eq!(bst.pre_order_vec(), vec![&10, &5, &3, &7]);
}

#[test]
fn iterative_remove_max_reattaches_left_child() {
    let mut bst = iterative_filled(&[1, 10, 5, 3, 7]);
    assert_eq!(bst.remove_max(), Some(10));
    assert_eq!(bst.pre_order_vec(), vec![&1, &5, &3, &7]);
}

#[test]
fn iterative_traversals_of_seven_values() {
    let bst = iterative_filled(&[4, 6, 2, 7, 5, 3, 1]);
    assert_eq!(bst.pre_order_vec(), vec![&4, &2, &1, &3, &6, &5, &7]);
    assert_eq!(bst.in_order_vec(), vec![&1, &2, &3, &4, &5, &6, &7]);
    assert_eq!(bst.asc_order_vec(), vec![&1, &2, &3, &4, &5, &6, &7]);
    assert_eq!(bst.post_order_vec(), vec![&1, &3, &2, &5, &7, &6, &4]);
    assert_eq!(bst.level_order_vec(), vec![&4, &2, &6, &1, &3, &5, &7]);
    assert_eq!(bst.height(), Some(2));
    assert_eq!(bst.size(), 7);
}

#[test]
fn iterative_level_order_of_uneven_tree() {
    let bst = iterative_filled(&[8, 3, 10, 1, 6, 14, 4, 7, 13]);
    assert_eq!(bst.level_order_vec(), vec![&8, &3, &10, &1, &6, &14, &4, &7, &13]);
    assert_eq!(bst.pre_order_vec(), vec![&8, &3, &1, &6, &4, &7, &10, &14, &13]);
    assert_eq!(bst.post_order_vec(), vec![&1, &4, &7, &6, &3, &13, &14, &10, &8]);
    assert_eq!(bst.height(), Some(3));
}

#[test]
fn iterative_borrowing_iterators() {
    let bst = iterative_filled(&[3, 4, 5, 1, 2]);
    let asc: Vec<&i32> = bst.asc_order_iter().collect();
    assert_eq!(asc, vec![&1, &2, &3, &4, &5]);
    let mut pre = bst.pre_order_iter();
    assert_eq!(pre.next(), Some(&3));
    assert_eq!(pre.next(), Some(&1));
    assert_eq!(pre.next(), Some(&2));
    assert_eq!(pre.next(), Some(&4));
    assert_eq!(pre.next(), Some(&5));
    assert_eq!(pre.next(), None);
    let ino: Vec<&i32> = bst.in_order_iter().collect();
    assert_eq!(ino, vec![&1, &2, &3, &4, &5]);
    let post: Vec<&i32> = bst.post_order_iter().collect();
    assert_eq!(post, vec![&2, &1, &5, &4, &3]);
    let level: Vec<&i32> = bst.level_order_iter().collect();
    assert_eq!(level, vec![&3, &1, &4, &2, &5]);
    // the tree is still there, and a second walk gives the same
    let again: Vec<&i32> = bst.level_order_iter().collect();
    assert_eq!(again, level);
    assert_eq!(bst.size(), 5);
}

#[test]
fn iterative_consuming_iterators() {
    let values = [3, 4, 5, 1, 2];
    let asc: Vec<i32> = iterative_filled(&values).into_asc_order_iter().collect();
    assert_eq!(asc, vec![1, 2, 3, 4, 5]);
    let pre: Vec<i32> = iterative_filled(&values).into_pre_order_iter().collect();
    assert_eq!(pre, vec![3, 1, 2, 4, 5]);
    let ino: Vec<i32> = iterative_filled(&values).into_in_order_iter().collect();
    assert_eq!(ino, vec![1, 2, 3, 4, 5]);
    let post: Vec<i32> = iterative_filled(&values).into_post_order_iter().collect();
    assert_eq!(post, vec![2, 1, 5, 4, 3]);
    let level: Vec<i32> = iterative_filled(&values).into_level_order_iter().collect();
    assert_eq!(level, vec![3, 1, 4, 2, 5]);
}

#[test]
fn iterative_consuming_matches_borrowing() {
    let values = [50, 30, 70, 20, 40, 60, 80, 35, 45, 65, 10, 25, 75, 85, 5];
    let bst = iterative_filled(&values);
    let pre: Vec<i32> = bst.pre_order_vec().into_iter().copied().collect();
    let ino: Vec<i32> = bst.in_order_vec().into_iter().copied().collect();
    let post: Vec<i32> = bst.post_order_vec().into_iter().copied().collect();
    let level: Vec<i32> = bst.level_order_vec().into_iter().copied().collect();
    assert_eq!(iterative_filled(&values).into_pre_order_iter().collect::<Vec<i32>>(), pre);
    assert_eq!(iterative_filled(&values).into_in_order_iter().collect::<Vec<i32>>(), ino);
    assert_eq!(iterative_filled(&values).into_asc_order_iter().collect::<Vec<i32>>(), ino);
    assert_eq!(iterative_filled(&values).into_post_order_iter().collect::<Vec<i32>>(), post);
    assert_eq!(iterative_filled(&values).into_level_order_iter().collect::<Vec<i32>>(), level);
    assert_eq!(level, vec![50, 30, 70, 20, 40, 60, 80, 10, 25, 35, 45, 65, 75, 85, 5]);
}

#[test]
fn iterative_consuming_moves_values_that_are_not_copy() {
    let mut bst = IterativeBST::new();
    for word in ["m", "f", "t", "a", "h", "p", "z"] {
        bst.insert(String::from(word));
    }
    let level: Vec<String> = bst.into_level_order_iter().collect();
    assert_eq!(level, vec!["m", "f", "t", "a", "h", "p", "z"]);
    let mut bst = IterativeBST::new();
    for word in ["m", "f", "t", "a", "h", "p", "z"] {
        bst.insert(String::from(word));
    }
    let post: Vec<String> = bst.into_post_order_iter().collect();
    assert_eq!(post, vec!["a", "h", "f", "p", "z", "t", "m"]);
}

#[test]
fn iterative_in_order_is_sorted_input_without_duplicates() {
    let input = [41, 7, 93, 7, 15, 41, 2, 88, 60, 15, 2, 2, 77];
    let bst = iterative_filled(&input);
    assert_eq!(bst.in_order_vec(), vec![&2, &7, &15, &41, &60, &77, &88, &93]);
    assert_eq!(bst.size(), 8);
}

#[test]
fn iterative_second_insert_changes_nothing() {
    let mut bst = iterative_filled(&[8, 3, 10]);
    bst.insert(6);
    let size = bst.size();
    let shape: Vec<i32> = bst.pre_order_vec().into_iter().copied().collect();
    bst.insert(6);
    assert_eq!(bst.size(), size);
    assert_eq!(bst.pre_order_vec().into_iter().copied().collect::<Vec<i32>>(), shape);
}

#[test]
fn iterative_from_vec_inserts_in_order() {
    let bst = IterativeBST::from(vec![4, 6, 2, 7, 5, 3, 1, 4]);
    assert_eq!(bst.size(), 7);
    assert_eq!(bst.pre_order_vec(), vec![&4, &2, &1, &3, &6, &5, &7]);
    let empty: IterativeBST<i32> = IterativeBST::from(Vec::new());
    assert!(empty.is_empty());
}

#[test]
fn iterative_from_slice_inserts_clones_in_order() {
    let values = [4, 6, 2, 7, 5, 3, 1, 4];
    let bst = IterativeBST::from(&values[..]);
    assert_eq!(bst.size(), 7);
    assert_eq!(bst.level_order_vec(), vec![&4, &2, &6, &1, &3, &5, &7]);
}

#[test]
fn iterative_clone_holds_the_same_values_in_its_own_shape() {
    let bst = iterative_filled(&[4, 6, 2, 7, 5, 3, 1]);
    let copy = bst.clone();
    assert_eq!(copy.size(), 7);
    assert_eq!(copy.in_order_vec(), bst.in_order_vec());
    // rebuilt from the ascending values, the copy is one long right spine
    assert_eq!(copy.pre_order_vec(), vec![&1, &2, &3, &4, &5, &6, &7]);
    assert_eq!(copy.height(), Some(6));
    assert!(copy == bst);
}

#[test]
fn iterative_clone_is_independent() {
    let bst = iterative_filled(&[2, 1, 3]);
    let mut copy = bst.clone();
    copy.remove(&2);
    copy.insert(9);
    assert_eq!(bst.in_order_vec(), vec![&1, &2, &3]);
    assert_eq!(copy.in_order_vec(), vec![&1, &3, &9]);
    assert!(copy != bst);
}

#[test]
fn iterative_equality_ignores_shape() {
    let a = iterative_filled(&[1, 2, 3]);
    let b = iterative_filled(&[2, 1, 3]);
    let c = iterative_filled(&[3, 2, 1]);
    assert_ne!(a.pre_order_vec(), b.pre_order_vec());
    assert!(a == b);
    assert!(b == c);
    assert!(a == c);
    let d = iterative_filled(&[1, 2]);
    assert!(a != d);
    let e = iterative_filled(&[1, 2, 4]);
    assert!(a != e);
    assert!(a != IterativeBST::new());
    assert!(IterativeBST::<i32>::new() == IterativeBST::new());
}

#[test]
fn iterative_default_is_empty() {
    let bst: IterativeBST<i32> = Default::default();
    assert!(bst.is_empty());
    assert_eq!(bst.size(), 0);
    assert!(bst == IterativeBST::new());
}

#[test]
fn iterative_debug_shows_something() {
    let bst = iterative_filled(&[2, 1]);
    let text = format!("{:?}", bst);
    assert!(text.contains("IterativeBST"));
    assert!(text.contains("size: 2"));
}
