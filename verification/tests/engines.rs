use bst_rs::{BinarySearchTree, IterativeBST, RecursiveBST};
use std::cmp::Ordering;

/// A pair that is ordered by its key alone.
#[derive(Debug, Clone)]
struct Keyed {
    key: u32,
    tag: &'static str,
}

impl PartialEq for Keyed {
    fn eq(&self, other: &Self) -> bool {
        self.key == other.key
    }
}

impl Eq for Keyed {}

impl PartialOrd for Keyed {
    fn partial_cmp(&self, other: &Self) -> Option<Ordering> {
        Some(self.cmp(other))
    }
}

impl Ord for Keyed {
    fn cmp(&self, other: &Self) -> Ordering {
        self.key.cmp(&other.key)
    }
}

fn engines_pseudo_random(seed: u64, count: usize, modulus: u64) -> Vec<u64> {
    let mut state = seed;
    let mut values = Vec::new();
    for _ in 0..count {
        state = state.wrapping_mul(6364136223846793005).wrapping_add(1442695040888963407);
        values.push((state >> 33) % modulus);
    }
    values
}

fn engines_assert_same(recursive: &RecursiveBST<u64>, iterative: &IterativeBST<u64>) {
    assert_eq!(recursive.size(), iterative.size());
    assert_eq!(recursive.is_empty(), iterative.is_empty());
    assert_eq!(recursive.height(), iterative.height());
    assert_eq!(recursive.min(), iterative.min());
    assert_eq!(recursive.max(), iterative.max());
    assert_eq!(recursive.pre_order_vec(), iterative.pre_order_vec());
    assert_eq!(recursive.in_order_vec(), iterative.in_order_vec());
    assert_eq!(recursive.post_order_vec(), iterative.post_order_vec());
    assert_eq!(recursive.level_order_vec(), iterative.level_order_vec());
    assert_eq!(recursive.asc_order_vec(), iterative.asc_order_vec());
}

#[test]
fn engines_agree_after_the_same_inserts_and_removals() {
    for seed in 1..=20u64 {
        let mut recursive = RecursiveBST::new();
        let mut iterative = IterativeBST::new();
        let values = engines_pseudo_random(seed, 300, 64);
        for (step, value) in values.iter().enumerate() {
            if step % 3 == 2 {
                recursive.remove(value);
                iterative.remove(value);
            } else {
                assert_eq!(recursive.insert(*value), iterative.insert(*value));
            }
            assert_eq!(recursive.contains(value), iterative.contains(value));
            if step % 17 == 0 {
                engines_assert_same(&recursive, &iterative);
            }
        }
        engines_assert_same(&recursive, &iterative);
    }
}

#[test]
fn engines_agree_on_remove_min_and_remove_max() {
    let values = engines_pseudo_random(99, 200, 1000);
    let mut recursive = RecursiveBST::from(values.clone());
    let mut iterative = IterativeBST::from(values);
    engines_assert_same(&recursive, &iterative);
    let mut turn = 0;
    while iterative.is_not_empty() {
        if turn % 2 == 0 {
            assert_eq!(recursive.remove_min(), iterative.remove_min());
        } else {
            assert_eq!(recursive.remove_max(), iterative.remove_max());
        }
        engines_assert_same(&recursive, &iterative);
        turn += 1;
    }
    assert!(recursive.is_empty());
    assert_eq!(recursive.remove_min(), None);
    assert_eq!(iterative.remove_max(), None);
}

#[test]
fn engines_agree_on_consuming_traversals() {
    for seed in 1..=10u64 {
        let values = engines_pseudo_random(seed, 100, 500);
        let borrowed = IterativeBST::from(values.clone());
        let pre: Vec<u64> = borrowed.pre_order_vec().into_iter().copied().collect();
        let ino: Vec<u64> = borrowed.in_order_vec().into_iter().copied().collect();
        let post: Vec<u64> = borrowed.post_order_vec().into_iter().copied().collect();
        let level: Vec<u64> = borrowed.level_order_vec().into_iter().copied().collect();
        let iterative = || IterativeBST::from(values.clone());
        let recursive = || RecursiveBST::from(values.clone());
        assert_eq!(iterative().into_pre_order_iter().collect::<Vec<u64>>(), pre);
        assert_eq!(recursive().into_pre_order_iter().collect::<Vec<u64>>(), pre);
        assert_eq!(iterative().into_in_order_iter().collect::<Vec<u64>>(), ino);
        assert_eq!(recursive().into_in_order_iter().collect::<Vec<u64>>(), ino);
        assert_eq!(iterative().into_asc_order_iter().collect::<Vec<u64>>(), ino);
        assert_eq!(recursive().into_asc_order_iter().collect::<Vec<u64>>(), ino);
        assert_eq!(iterative().into_post_order_iter().collect::<Vec<u64>>(), post);
        assert_eq!(recursive().into_post_order_iter().collect::<Vec<u64>>(), post);
        assert_eq!(iterative().into_level_order_iter().collect::<Vec<u64>>(), level);
        assert_eq!(recursive().into_level_order_iter().collect::<Vec<u64>>(), level);
    }
}

#[test]
fn engines_in_order_is_the_sorted_input_without_duplicates() {
    for seed in 1..=10u64 {
        let values = engines_pseudo_random(seed, 200, 50);
        let mut expected = values.clone();
        expected.sort();
        expected.dedup();
        let iterative = IterativeBST::from(values.clone());
        let recursive = RecursiveBST::from(values);
        let listed: Vec<u64> = iterative.in_order_vec().into_iter().copied().collect();
        assert_eq!(listed, expected);
        let listed: Vec<u64> = recursive.in_order_vec().into_iter().copied().collect();
        assert_eq!(listed, expected);
        assert_eq!(iterative.size(), expected.len());
        assert_eq!(recursive.size(), expected.len());
        for pair in listed.windows(2) {
            assert!(pair[0] < pair[1]);
        }
    }
}

#[test]
fn engines_size_follows_every_insert_and_removal() {
    let mut iterative = IterativeBST::new();
    let mut recursive = RecursiveBST::new();
    let mut expected = 0;
    for value in engines_pseudo_random(7, 400, 40) {
        let present = iterative.contains(&value);
        if value % 2 == 0 {
            iterative.insert(value);
            recursive.insert(value);
            if !present {
                expected += 1;
            }
        } else {
            iterative.remove(&value);
            recursive.remove(&value);
            if present {
                expected -= 1;
            }
            assert!(!iterative.contains(&value));
            assert!(!recursive.contains(&value));
        }
        assert_eq!(iterative.size(), expected);
        assert_eq!(recursive.size(), expected);
    }
}

#[test]
fn engines_keep_the_first_of_equal_values() {
    let first = Keyed { key: 1, tag: "first" };
    let second = Keyed { key: 1, tag: "second" };
    let other = Keyed { key: 2, tag: "other" };
    let mut iterative = IterativeBST::new();
    assert!(iterative.insert(first.clone()));
    assert!(!iterative.insert(second.clone()));
    assert!(iterative.insert(other.clone()));
    assert_eq!(iterative.size(), 2);
    assert_eq!(iterative.retrieve(&second).unwrap().tag, "first");
    assert!(iterative.contains(&second));
    let mut recursive = RecursiveBST::new();
    assert!(recursive.insert(first));
    assert!(!recursive.insert(second.clone()));
    assert!(recursive.insert(other));
    assert_eq!(recursive.size(), 2);
    assert_eq!(recursive.retrieve(&second).unwrap().tag, "first");
    recursive.remove(&second);
    iterative.remove(&second);
    assert!(!recursive.contains(&second));
    assert!(!iterative.contains(&second));
    assert_eq!(recursive.min().unwrap().tag, "other");
    assert_eq!(iterative.min().unwrap().tag, "other");
}

#[test]
fn engines_clone_and_from_slice_clone_each_value() {
    let values = vec![String::from("b"), String::from("a"), String::from("c")];
    let iterative = IterativeBST::from(&values[..]);
    let recursive = RecursiveBST::from(&values[..]);
    assert_eq!(values.len(), 3);
    assert_eq!(iterative.pre_order_vec(), vec!["b", "a", "c"]);
    assert_eq!(recursive.pre_order_vec(), vec!["b", "a", "c"]);
    let copy = iterative.clone();
    assert_eq!(copy.pre_order_vec(), vec!["a", "b", "c"]);
    assert!(copy == iterative);
    let copy = recursive.clone();
    assert_eq!(copy.pre_order_vec(), vec!["a", "b", "c"]);
    assert!(copy == recursive);
}

#[test]
fn engines_writing_an_equal_value_keeps_the_order() {
    let mut iterative = IterativeBST::new();
    let mut recursive = RecursiveBST::new();
    for (key, tag) in [(5, "five"), (3, "three"), (8, "eight"), (4, "four")] {
        iterative.insert(Keyed { key, tag });
        recursive.insert(Keyed { key, tag });
    }
    let probe = Keyed { key: 3, tag: "" };
    *iterative.retrieve_as_mut(&probe).unwrap() = Keyed { key: 3, tag: "drei" };
    *recursive.retrieve_as_mut(&probe).unwrap() = Keyed { key: 3, tag: "drei" };
    assert_eq!(iterative.retrieve(&probe).unwrap().tag, "drei");
    assert_eq!(recursive.retrieve(&probe).unwrap().tag, "drei");
    assert_eq!(iterative.size(), 4);
    assert_eq!(recursive.size(), 4);
    let keys: Vec<u32> = iterative.in_order_vec().into_iter().map(|k| k.key).collect();
    assert_eq!(keys, vec![3, 4, 5, 8]);
    let keys: Vec<u32> = recursive.in_order_vec().into_iter().map(|k| k.key).collect();
    assert_eq!(keys, vec![3, 4, 5, 8]);
    for key in [3, 4, 5, 8] {
        assert!(iterative.contains(&Keyed { key, tag: "" }));
        assert!(recursive.contains(&Keyed { key, tag: "" }));
    }
}
