use polypaths::paths::{generate_possibility, insert_path, is_reversal, PolyPath};
use polypaths::ranking::{count_visit_orders, MAX_SIZE};
use polypaths::walk::{step_from, validate_path};

#[test]
fn visit_orders_by_rank() {
    assert_eq!(generate_possibility(0, 3), vec![0, 1, 2]);
    assert_eq!(generate_possibility(1, 3), vec![0, 2, 1]);
    assert_eq!(generate_possibility(0, 4), vec![0, 1, 2, 3]);
    assert_eq!(generate_possibility(1, 4), vec![0, 2, 1, 3]);
    assert_eq!(generate_possibility(2, 4), vec![0, 3, 1, 2]);
    assert_eq!(generate_possibility(3, 4), vec![0, 1, 3, 2]);
    assert_eq!(generate_possibility(4, 4), vec![0, 2, 3, 1]);
    assert_eq!(generate_possibility(5, 4), vec![0, 3, 2, 1]);
    assert_eq!(generate_possibility(23, 5), vec![0, 4, 3, 2, 1]);
}

#[test]
fn ranks_give_distinct_orders_from_corner_zero() {
    for n in 3..=7 {
        let total = count_visit_orders(n);
        let mut seen: Vec<Vec<i32>> = Vec::new();
        for rank in 0..total {
            let order = generate_possibility(rank, n);
            assert_eq!(order.len(), n as usize);
            assert_eq!(order[0], 0);
            assert!(PolyPath::validate_verts(&order));
            seen.push(order);
        }
        seen.sort();
        seen.dedup();
        assert_eq!(seen.len(), total as usize);
    }
}

#[test]
fn number_of_visit_orders() {
    assert_eq!(count_visit_orders(1), 1);
    assert_eq!(count_visit_orders(2), 1);
    assert_eq!(count_visit_orders(3), 2);
    assert_eq!(count_visit_orders(4), 6);
    assert_eq!(count_visit_orders(9), 40320);
    assert_eq!(count_visit_orders(MAX_SIZE), 479001600);
    assert_eq!(MAX_SIZE, 13);
}

#[test]
fn validate_verts_accepts_visit_orders_only() {
    assert!(PolyPath::validate_verts(&vec![0, 1, 2]));
    assert!(PolyPath::validate_verts(&vec![1, 2, 0]));
    assert!(PolyPath::validate_verts(&vec![0, 3, 1, 4, 2]));
    assert!(!PolyPath::validate_verts(&vec![]));
    assert!(!PolyPath::validate_verts(&vec![0]));
    assert!(!PolyPath::validate_verts(&vec![0, 1]));
    assert!(!PolyPath::validate_verts(&vec![0, 1, 1]));
    assert!(!PolyPath::validate_verts(&vec![0, 1, 3]));
    assert!(!PolyPath::validate_verts(&vec![0, -1, 2]));
    assert!(!PolyPath::validate_verts(&vec![0, 1, 2, 0]));
}

#[test]
fn jumps_of_a_visit_order() {
    assert_eq!(PolyPath::verts_to_path(&vec![0, 1, 2]), vec![1, 1, 1]);
    assert_eq!(PolyPath::verts_to_path(&vec![0, 2, 1]), vec![2, 2, 2]);
    assert_eq!(PolyPath::verts_to_path(&vec![0, 2, 1, 3]), vec![2, 3, 2, 1]);
    assert_eq!(PolyPath::verts_to_path(&vec![0, 2, 4, 1, 3]), vec![2, 2, 2, 2, 2]);
    assert_eq!(PolyPath::verts_to_path(&vec![3, 0, 4, 1, 2]), vec![2, 4, 2, 1, 1]);
    assert_eq!(PolyPath::verts_to_path(&vec![0]), vec![0]);
}

#[test]
fn path_from_a_visit_order() {
    let p = PolyPath::new_from_verts(&vec![0, 2, 1]);
    assert_eq!(p, PolyPath { size: 3, path: vec![1, 1, 1] });
    let star = PolyPath::new_from_verts(&vec![0, 3, 1, 4, 2]);
    assert_eq!(star, PolyPath { size: 5, path: vec![2, 2, 2, 2, 2] });
    let bow_tie = PolyPath::new_from_verts(&vec![2, 0, 1, 3]);
    assert_eq!(bow_tie, PolyPath { size: 4, path: vec![1, 2, 3, 2] });
    assert_eq!(bow_tie.clone(), bow_tie);
}

#[test]
fn steps_wrap_around() {
    assert_eq!(step_from(0, 1, 3), 1);
    assert_eq!(step_from(2, 1, 3), 0);
    assert_eq!(step_from(2, 2, 3), 1);
    assert_eq!(step_from(1, 7, 3), 2);
    assert_eq!(step_from(1, -1, 3), 0);
    assert_eq!(step_from(0, -1, 3), 2);
    assert_eq!(step_from(0, -3, 3), 0);
    assert_eq!(step_from(4, i32::MAX, 5), 1);
    assert_eq!(step_from(4, i32::MIN, 5), 1);
    assert_eq!(step_from(0, 0, 1), 0);
}

#[test]
fn validate_path_follows_the_walk() {
    assert!(validate_path(&vec![1, 1, 1]));
    assert!(validate_path(&vec![2, 2, 2]));
    assert!(validate_path(&vec![1, 2, 3, 2]));
    assert!(validate_path(&vec![2, 2, 2, 2, 2]));
    assert!(validate_path(&vec![4, 1, 1]));
    assert!(validate_path(&vec![-1, -1, -1]));
    assert!(validate_path(&vec![1, 1]));
    assert!(validate_path(&vec![0]));
    assert!(validate_path(&vec![5]));
    assert!(!validate_path(&vec![]));
    assert!(!validate_path(&vec![2, 2]));
    assert!(!validate_path(&vec![2, 2, 2, 2]));
    assert!(!validate_path(&vec![1, 1, 2]));
    assert!(!validate_path(&vec![1, 2, 1, 2]));
    assert!(!validate_path(&vec![1, 1, 1, 2]));
    assert!(!validate_path(&vec![0, 1, 2]));
}

#[test]
fn jumps_of_every_visit_order_are_accepted() {
    for n in 3..=6 {
        for rank in 0..count_visit_orders(n) {
            let order = generate_possibility(rank, n);
            let jumps = PolyPath::verts_to_path(&order);
            assert!(validate_path(&jumps), "n = {}, rank = {}", n, rank);
            assert!(jumps.iter().all(|&j| 1 <= j && j < n));
        }
    }
}

#[test]
fn reversal_counts_large_against_small() {
    assert!(!is_reversal(&vec![]));
    assert!(!is_reversal(&vec![1, 1, 1]));
    assert!(is_reversal(&vec![3, 3, 3]));
    assert!(!is_reversal(&vec![2, 2, 2]));
    assert!(!is_reversal(&vec![0, 0, 5]));
    assert!(is_reversal(&vec![0, 5, 5]));
    assert!(!is_reversal(&vec![0, 5]));
    assert!(!is_reversal(&vec![1, 2, 4, 2, 1]));
    assert!(is_reversal(&vec![4, 4, 1, 3, 3]));
    assert!(!is_reversal(&vec![4, 4, 1, 1, 3]));
    assert!(is_reversal(&vec![3, 3, 3, 3]));
    assert!(!is_reversal(&vec![2, 2, 2, 2]));
    assert!(!is_reversal(&vec![-7, 9, 1, 2]));
}

#[test]
fn insert_keeps_order_and_drops_repeats() {
    let mut found: Vec<PolyPath> = Vec::new();
    let make = |path: Vec<i32>| PolyPath { size: path.len() as i32, path };
    insert_path(&mut found, make(vec![2, 2, 2, 2, 2]));
    insert_path(&mut found, make(vec![1, 1, 1, 1, 1]));
    insert_path(&mut found, make(vec![1, 2, 1, 3, 3]));
    insert_path(&mut found, make(vec![1, 1, 1, 1, 1]));
    insert_path(&mut found, make(vec![1, 1, 1]));
    insert_path(&mut found, make(vec![1, 1, 2, 4, 2]));
    insert_path(&mut found, make(vec![2, 2, 2, 2, 2]));
    let jumps: Vec<Vec<i32>> = found.iter().map(|p| p.path.clone()).collect();
    assert_eq!(
        jumps,
        vec![
            vec![1, 1, 1],
            vec![1, 1, 1, 1, 1],
            vec![1, 1, 2, 4, 2],
            vec![1, 2, 1, 3, 3],
            vec![2, 2, 2, 2, 2],
        ]
    );
}
