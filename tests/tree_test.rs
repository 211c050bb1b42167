use cpu_api::names::{process_name, ROOT};
use cpu_api::tree::{ActionError, ProcessTree, Reparent};

fn names(t: &ProcessTree, p: usize) -> Vec<String> {
    t.children_of(p).iter().map(|c| process_name(*c)).collect()
}

// a -> b -> d, a -> c
fn small_tree() -> ProcessTree {
    let mut t = ProcessTree::new();
    let b = t.fork(ROOT).unwrap();
    let c = t.fork(ROOT).unwrap();
    let d = t.fork(b).unwrap();
    assert_eq!((b, c, d), (1, 2, 3));
    t
}

// a -> b -> d -> g
fn chain_tree() -> ProcessTree {
    let mut t = ProcessTree::new();
    let b = t.fork(ROOT).unwrap();
    let d = t.fork(b).unwrap();
    t.fork(d).unwrap();
    t
}

#[test]
fn new_tree_is_root_alone() {
    let t = ProcessTree::new();
    assert!(t.is_alive(ROOT));
    assert!(!t.is_alive(1));
    assert_eq!(t.allocated_count(), 1);
    assert!(t.children_of(ROOT).is_empty());
}

#[test]
fn fork_unknown_parent_fails() {
    let mut t = ProcessTree::new();
    assert_eq!(t.fork(5), Err(ActionError::UnknownProcess));
    assert_eq!(t.allocated_count(), 1);
}

#[test]
fn fork_ids_are_fresh_and_in_order() {
    let mut t = ProcessTree::new();
    let mut ids = Vec::new();
    for _ in 0..60 {
        ids.push(t.fork(ROOT).unwrap());
    }
    let expected: Vec<usize> = (1..61).collect();
    assert_eq!(ids, expected);
    let mut seen: Vec<String> = ids.iter().map(|i| process_name(*i)).collect();
    assert_eq!(seen[0], "b");
    assert_eq!(seen[50], "Z");
    assert_eq!(seen[51], "aa");
    seen.sort();
    seen.dedup();
    assert_eq!(seen.len(), 60);
}

#[test]
fn exit_local_reparents_to_grandparent() {
    let mut t = small_tree();
    assert_eq!(t.exit(1, Reparent::Local), Ok(()));
    assert_eq!(names(&t, ROOT), vec!["c", "d"]);
    assert!(!t.is_alive(1));
    assert_eq!(t.parent_of(3), ROOT);
}

#[test]
fn exit_root_policy_shallow_matches_local() {
    let mut t = small_tree();
    assert_eq!(t.exit(1, Reparent::Root), Ok(()));
    assert_eq!(names(&t, ROOT), vec!["c", "d"]);
}

#[test]
fn exit_root_policy_flattens_subtree() {
    let mut t = chain_tree();
    // b = 1, d = 2, g = 3
    assert_eq!(t.exit(1, Reparent::Root), Ok(()));
    assert_eq!(t.children_of(ROOT), &vec![2, 3]);
    assert!(t.children_of(2).is_empty());
    assert_eq!(t.parent_of(3), ROOT);
}

#[test]
fn exit_local_policy_keeps_deeper_chain() {
    let mut t = chain_tree();
    assert_eq!(t.exit(1, Reparent::Local), Ok(()));
    assert_eq!(t.children_of(ROOT), &vec![2]);
    assert_eq!(t.children_of(2), &vec![3]);
}

#[test]
fn exit_root_is_refused() {
    let mut t = small_tree();
    assert_eq!(t.exit(ROOT, Reparent::Local), Err(ActionError::CannotExitRoot));
    assert_eq!(t.exit(ROOT, Reparent::Root), Err(ActionError::CannotExitRoot));
    assert_eq!(names(&t, ROOT), vec!["b", "c"]);
    assert_eq!(names(&t, 1), vec!["d"]);
}

#[test]
fn exit_unknown_or_exited_is_refused() {
    let mut t = small_tree();
    assert_eq!(t.exit(9, Reparent::Local), Err(ActionError::UnknownProcess));
    t.exit(2, Reparent::Local).unwrap();
    assert_eq!(t.exit(2, Reparent::Local), Err(ActionError::UnknownProcess));
    assert_eq!(t.fork(2), Err(ActionError::UnknownProcess));
}

#[test]
fn descendants_in_pre_order() {
    let mut t = small_tree();
    t.fork(1).unwrap();
    t.fork(3).unwrap();
    assert_eq!(t.descendants(ROOT), vec![0, 1, 3, 5, 4, 2]);
    assert_eq!(t.descendants(2), vec![2]);
}

#[test]
fn invariants_hold_after_mixed_actions() {
    let mut t = ProcessTree::new();
    let b = t.fork(ROOT).unwrap();
    let c = t.fork(b).unwrap();
    let d = t.fork(c).unwrap();
    let e = t.fork(b).unwrap();
    t.exit(c, Reparent::Local).unwrap();
    t.exit(b, Reparent::Root).unwrap();
    let f = t.fork(d).unwrap();
    for p in 0..t.allocated_count() {
        if !t.is_alive(p) {
            continue;
        }
        for k in t.children_of(p) {
            assert!(t.is_alive(*k));
            assert_eq!(t.parent_of(*k), p);
        }
        if p != ROOT {
            let q = t.parent_of(p);
            assert!(q < p && t.is_alive(q));
            assert!(t.children_of(q).contains(&p));
        }
    }
    // b's children were [e, d] when it exited; its subtree in pre-order
    assert_eq!(t.children_of(ROOT), &vec![e, d]);
    assert_eq!(t.children_of(d), &vec![f]);
}

#[test]
fn descendants_of_leaf_is_leaf() {
    let t = small_tree();
    assert_eq!(t.descendants(3), vec![3]);
    assert_eq!(t.descendants(1), vec![1, 3]);
}
