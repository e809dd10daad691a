use almost_union_find::union_find::UnionFind;

fn fresh(n: usize) -> UnionFind {
    assert!(UnionFind::supports(n));
    UnionFind::new(n)
}

#[test]
fn fresh_forest_has_singletons() {
    let forest = fresh(5);
    assert_eq!(forest.len(), 5);
    for p in 0..5usize {
        assert_eq!(forest.find(p), p);
        assert_eq!(forest.size_sum(p), (1, p as u64 + 1));
    }
}

#[test]
fn empty_forest_can_be_built() {
    let forest = fresh(0);
    assert_eq!(forest.len(), 0);
}

#[test]
fn union_of_two_singletons() {
    let mut forest = fresh(5);
    forest.union(0, 1);
    assert_eq!(forest.size_sum(0), (2, 3));
    assert_eq!(forest.size_sum(1), (2, 3));
    assert_eq!(forest.find(1), 0);
    assert_eq!(forest.find(0), 0);
}

#[test]
fn union_of_two_pairs() {
    let mut forest = fresh(5);
    forest.union(0, 1);
    forest.union(2, 3);
    forest.union(0, 2);
    assert_eq!(forest.size_sum(3), (4, 10));
    assert_eq!(forest.find(3), 0);
    assert_eq!(forest.size_sum(4), (1, 5));
}

#[test]
fn move_of_a_leaf() {
    let mut forest = fresh(5);
    forest.union(0, 1);
    forest.union(2, 3);
    forest.union(0, 2);
    forest.move_number(1, 4);
    assert_eq!(forest.size_sum(1), (2, 7));
    assert_eq!(forest.size_sum(4), (2, 7));
    assert_eq!(forest.size_sum(0), (3, 8));
    assert_eq!(forest.find(1), 4);
}

#[test]
fn union_twice_is_union_once() {
    let mut once = fresh(6);
    once.union(1, 2);
    once.union(4, 2);
    let mut twice = fresh(6);
    twice.union(1, 2);
    twice.union(4, 2);
    twice.union(4, 2);
    for p in 0..6usize {
        assert_eq!(once.find(p), twice.find(p));
        assert_eq!(once.size_sum(p), twice.size_sum(p));
    }
}

#[test]
fn operations_inside_one_set_change_nothing() {
    let mut forest = fresh(6);
    forest.union(0, 1);
    forest.union(0, 2);
    forest.union(3, 4);
    let before: Vec<(usize, (u64, u64))> =
        (0..6usize).map(|p| (forest.find(p), forest.size_sum(p))).collect();
    forest.union(1, 2);
    forest.move_number(2, 1);
    forest.move_number(0, 0);
    forest.union(5, 5);
    let after: Vec<(usize, (u64, u64))> =
        (0..6usize).map(|p| (forest.find(p), forest.size_sum(p))).collect();
    assert_eq!(before, after);
}

#[test]
fn move_of_a_root_promotes_its_oldest_child() {
    let mut forest = fresh(6);
    forest.union(0, 1);
    forest.union(0, 2);
    forest.union(0, 3);
    forest.move_number(0, 5);
    assert_eq!(forest.find(0), 5);
    assert_eq!(forest.find(1), 1);
    assert_eq!(forest.find(2), 1);
    assert_eq!(forest.find(3), 1);
    assert_eq!(forest.size_sum(0), (2, 7));
    assert_eq!(forest.size_sum(1), (3, 9));
    assert_eq!(forest.size_sum(4), (1, 5));
}

#[test]
fn move_of_an_inner_element_keeps_its_subtree_behind() {
    let mut forest = fresh(7);
    forest.union(1, 2);
    forest.union(1, 3);
    forest.union(0, 1);
    // 0 is the root, 1 is below it with the children 2 and 3.
    forest.move_number(1, 6);
    assert_eq!(forest.find(1), 6);
    assert_eq!(forest.find(2), 0);
    assert_eq!(forest.find(3), 0);
    assert_eq!(forest.size_sum(0), (3, 8));
    assert_eq!(forest.size_sum(2), (3, 8));
    assert_eq!(forest.size_sum(1), (2, 9));
    forest.move_number(2, 4);
    assert_eq!(forest.find(3), 0);
    assert_eq!(forest.size_sum(3), (2, 5));
    assert_eq!(forest.size_sum(2), (2, 8));
}

#[test]
fn move_of_a_singleton() {
    let mut forest = fresh(3);
    forest.move_number(0, 2);
    assert_eq!(forest.size_sum(0), (2, 4));
    assert_eq!(forest.size_sum(1), (1, 2));
    assert_eq!(forest.find(0), 2);
}

fn scan(forest: &UnionFind) {
    let n = forest.len();
    for r in 0..n {
        if forest.find(r) == r {
            let mut count = 0u64;
            let mut sum = 0u64;
            for p in 0..n {
                if forest.find(p) == r {
                    count += 1;
                    sum += p as u64 + 1;
                }
            }
            assert_eq!(forest.size_sum(r), (count, sum));
        }
    }
}

#[test]
fn cached_aggregates_match_a_full_scan() {
    let mut forest = fresh(12);
    let steps: [(u8, usize, usize); 14] = [
        (1, 0, 1),
        (1, 2, 3),
        (1, 0, 2),
        (2, 1, 4),
        (1, 5, 6),
        (1, 5, 7),
        (1, 8, 5),
        (2, 5, 0),
        (2, 8, 9),
        (1, 10, 11),
        (2, 0, 10),
        (2, 2, 11),
        (1, 9, 3),
        (2, 6, 6),
    ];
    for (kind, p, q) in steps {
        if kind == 1 {
            forest.union(p, q);
        } else {
            forest.move_number(p, q);
        }
        scan(&forest);
    }
}

#[test]
fn supports_tells_when_the_sums_fit() {
    assert!(UnionFind::supports(0));
    assert!(UnionFind::supports(100_000));
    assert!(UnionFind::supports(6_074_000_999));
    assert!(!UnionFind::supports(6_074_001_000));
    assert!(!UnionFind::supports(usize::MAX));
}
