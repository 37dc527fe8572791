use ordered_treap::random::Random;
use ordered_treap::session::{Reply, Session};
use ordered_treap::treap::Treap;

fn in_order(tree: &Treap, out: &mut Vec<(i32, i32)>) {
    if let Treap::Node(key, priority, _, left, right) = tree {
        in_order(left, out);
        out.push((*key, *priority));
        in_order(right, out);
    }
}

fn entries(tree: &Treap) -> Vec<(i32, i32)> {
    let mut out = Vec::new();
    in_order(tree, &mut out);
    out
}

fn keys(tree: &Treap) -> Vec<i32> {
    entries(tree).into_iter().map(|e| e.0).collect()
}

fn count(tree: &Treap) -> usize {
    match tree {
        Treap::Nil => 0,
        Treap::Node(_, _, _, left, right) => 1 + count(left) + count(right),
    }
}

fn priority_of(tree: &Treap) -> Option<i32> {
    match tree {
        Treap::Nil => None,
        Treap::Node(_, priority, _, _, _) => Some(*priority),
    }
}

/// Checks search order, heap order and the recorded sizes at every node.
fn check_invariants(tree: &Treap) {
    let ks = keys(tree);
    for pair in ks.windows(2) {
        assert!(pair[0] < pair[1], "keys out of order: {:?}", ks);
    }
    check_nodes(tree);
}

fn check_nodes(tree: &Treap) {
    if let Treap::Node(_, priority, size, left, right) = tree {
        assert_eq!(*size, 1 + left.size() + right.size());
        assert_eq!(*size, count(tree));
        if let Some(p) = priority_of(left) {
            assert!(*priority >= p);
        }
        if let Some(p) = priority_of(right) {
            assert!(*priority >= p);
        }
        check_nodes(left);
        check_nodes(right);
    }
}

/// Checks that no node has a right child of its own priority.
fn check_ties(tree: &Treap) {
    if let Treap::Node(_, priority, _, left, right) = tree {
        if let Some(p) = priority_of(right) {
            assert!(p < *priority);
        }
        check_ties(left);
        check_ties(right);
    }
}

/// Keys 0, 37, 74, ... taken modulo 101: all different for fewer than 101.
fn scattered(n: i32) -> Vec<i32> {
    (0..n).map(|i| (i * 37) % 101 - 50).collect()
}

#[test]
fn invariants_hold_after_inserts_and_deletes() {
    let mut random = Random::new();
    let mut tree = Treap::Nil;
    check_invariants(&tree);
    for key in scattered(60) {
        tree = tree.push(key, random.next());
        check_invariants(&tree);
    }
    for key in scattered(60).into_iter().step_by(3) {
        tree = tree.del(key);
        check_invariants(&tree);
    }
    tree = tree.del(1000);
    check_invariants(&tree);
    assert_eq!(tree.size(), 40);
}

#[test]
fn invariants_hold_with_equal_priorities() {
    let mut tree = Treap::Nil;
    for key in scattered(30) {
        tree = tree.push(key, 5);
        check_invariants(&tree);
        check_ties(&tree);
    }
    for key in scattered(30) {
        tree = tree.del(key);
        check_invariants(&tree);
        check_ties(&tree);
    }
    assert_eq!(tree, Treap::Nil);
}

#[test]
fn invariants_hold_when_keys_come_again() {
    let mut random = Random::new();
    let mut tree = Treap::Nil;
    for round in 0..4 {
        for key in scattered(20) {
            tree = tree.push(key, random.next());
            check_invariants(&tree);
            check_ties(&tree);
        }
        assert_eq!(tree.size(), 20, "round {}", round);
    }
}

#[test]
fn invariants_hold_after_any_requests() {
    let mut session = Session::new();
    for i in 0..300 {
        let op = (i * 7) % 3;
        let val = (i * 37) % 41;
        let before = session.len();
        let reply = session.step(op, val);
        check_invariants(session.tree());
        check_ties(session.tree());
        if op == 0 {
            assert_eq!(session.len(), before);
            if 1 <= val && (val as usize) <= before {
                assert!(matches!(reply, Reply::Key(_)));
            } else {
                assert_eq!(reply, Reply::NotFound);
            }
        } else {
            assert_eq!(reply, Reply::Done);
        }
    }
}

#[test]
fn the_entries_fix_the_shape() {
    let pairs = [(4, 9), (1, 9), (7, 3), (2, 9), (9, 3), (5, 1), (3, 3)];
    let mut forward = Treap::Nil;
    for (key, priority) in pairs {
        forward = forward.push(key, priority);
    }
    let mut backward = Treap::Nil;
    for (key, priority) in pairs.iter().rev() {
        backward = backward.push(*key, *priority);
    }
    let mut detour = Treap::Nil;
    let longer = [(100, 50), (2, 9), (3, 3), (4, 9), (-8, 9), (5, 1), (7, 3), (1, 9), (9, 3)];
    for (key, priority) in longer {
        detour = detour.push(key, priority);
    }
    detour = detour.del(100).del(-8);
    check_ties(&forward);
    assert_eq!(forward, backward);
    assert_eq!(forward, detour);
    match &forward {
        Treap::Node(key, priority, size, _, _) => assert_eq!((*key, *priority, *size), (4, 9, 7)),
        Treap::Nil => panic!("seven keys were inserted"),
    }
}

#[test]
fn size_after_n_inserts_is_n() {
    let mut random = Random::new();
    let mut tree = Treap::Nil;
    let mut n = 0;
    for key in scattered(100) {
        tree = tree.push(key, random.next());
        n += 1;
        assert_eq!(tree.size(), n);
    }
    assert_eq!(tree.size(), 100);
}

#[test]
fn split_then_merge_gives_the_same_entries() {
    for pivot in [-60, -50, -13, 0, 1, 24, 50, 60] {
        let mut random = Random::new();
        let mut tree = Treap::Nil;
        for key in scattered(40) {
            tree = tree.push(key, random.next());
        }
        let before = entries(&tree);
        let (low, high) = tree.split(pivot);
        assert!(keys(&low).iter().all(|k| *k <= pivot));
        assert!(keys(&high).iter().all(|k| *k > pivot));
        check_invariants(&low);
        check_invariants(&high);
        let joined = Treap::merge(low, high);
        check_invariants(&joined);
        assert_eq!(entries(&joined), before);
    }
}

#[test]
fn every_rank_selects_its_key() {
    let mut random = Random::new();
    let mut tree = Treap::Nil;
    for key in scattered(50) {
        tree = tree.push(key, random.next());
    }
    let mut sorted = scattered(50);
    sorted.sort();
    sorted.reverse();
    for (i, key) in sorted.iter().enumerate() {
        assert_eq!(tree.get(i + 1), Some(*key));
    }
    assert_eq!(tree.get(tree.size() + 1), None);
    assert_eq!(tree.get(0), None);
}

#[test]
fn delete_then_select() {
    let mut tree = Treap::Nil;
    for (key, priority) in [(5, 17), (3, 4), (8, 29), (1, 11)] {
        tree = tree.push(key, priority);
    }
    tree = tree.del(8);
    assert_eq!(tree.get(1), Some(5));
    assert_eq!(tree.size(), 3);
    assert_eq!(tree.get(2), Some(3));
    assert_eq!(tree.get(3), Some(1));
    assert_eq!(tree.get(4), None);
}

#[test]
fn delete_of_an_absent_key_keeps_the_key_sequence() {
    let mut random = Random::new();
    let mut tree = Treap::Nil;
    for key in scattered(25) {
        tree = tree.push(key, random.next());
    }
    let before = entries(&tree);
    for absent in [-51, 51, 1000, i32::MIN, i32::MAX] {
        tree = tree.del(absent);
        assert_eq!(entries(&tree), before);
        assert_eq!(tree.size(), 25);
    }
}

#[test]
fn delete_twice_is_delete_once() {
    let mut tree = Treap::Nil;
    for (key, priority) in [(5, 17), (3, 4), (8, 29)] {
        tree = tree.push(key, priority);
    }
    tree = tree.del(3);
    let once = entries(&tree);
    tree = tree.del(3);
    assert_eq!(entries(&tree), once);
    assert_eq!(once, vec![(5, 17), (8, 29)]);
}

#[test]
fn insert_delete_select_scenario() {
    let mut tree = Treap::Nil;
    tree = tree.push(10, 320100);
    tree = tree.push(5, 424189);
    tree = tree.push(9, 518788);
    assert_eq!(tree.size(), 3);
    tree = tree.del(9);
    assert_eq!(tree.size(), 2);
    assert_eq!(tree.get(1), Some(10));
    assert_eq!(keys(&tree), vec![5, 10]);
}
