use fantoch::combination::{combinations, enumerable};

#[test]
fn combinations_of_four_taken_two_in_order() {
    let cs = combinations(4, 2);
    let expected: Vec<Vec<usize>> = vec![
        vec![0, 1],
        vec![0, 2],
        vec![0, 3],
        vec![1, 2],
        vec![1, 3],
        vec![2, 3],
    ];
    assert_eq!(cs, expected);
}

#[test]
fn combinations_count_is_binomial() {
    assert_eq!(combinations(5, 3).len(), 10);
    assert_eq!(combinations(13, 5).len(), 1287);
    assert_eq!(combinations(6, 6), vec![vec![0, 1, 2, 3, 4, 5]]);
    assert_eq!(combinations(3, 1), vec![vec![0], vec![1], vec![2]]);
}

#[test]
fn combinations_are_strictly_increasing_and_distinct() {
    let cs = combinations(7, 4);
    for c in &cs {
        assert_eq!(c.len(), 4);
        for w in c.windows(2) {
            assert!(w[0] < w[1]);
        }
    }
    for w in cs.windows(2) {
        assert!(w[0] < w[1]);
    }
}

#[test]
fn enumerable_bounds() {
    assert!(enumerable(5, 3));
    assert!(enumerable(20, 13));
    assert!(enumerable(1, 1));
    assert!(!enumerable(3, 0));
    assert!(!enumerable(3, 4));
    assert!(!enumerable(0, 0));
}

#[test]
fn enumerable_rejects_overflowing_counts() {
    // 30! does not fit in 64 bits
    assert!(!enumerable(40, 30));
    // 100! / 90! does not fit in 64 bits
    assert!(!enumerable(100, 10));
}
