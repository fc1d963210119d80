use polypaths::lex::lex_less;
use polypaths::orbit::{least_rotation_of, lesser_of, mirror, reverse, rotate};
use polypaths::paths::PolyPath;

#[test]
fn rotate_starts_later() {
    let v = vec![1, 2, 3, 4, 5];
    assert_eq!(rotate(&v, 0), vec![1, 2, 3, 4, 5]);
    assert_eq!(rotate(&v, 2), vec![3, 4, 5, 1, 2]);
    assert_eq!(rotate(&v, 4), vec![5, 1, 2, 3, 4]);
    assert_eq!(rotate(&v, 5), vec![1, 2, 3, 4, 5]);
}

#[test]
fn reverse_reads_backwards() {
    assert_eq!(reverse(&vec![1, 2, 3, 2]), vec![2, 3, 2, 1]);
    assert_eq!(reverse(&vec![]), Vec::<i32>::new());
    assert_eq!(reverse(&vec![7]), vec![7]);
}

#[test]
fn mirror_negates_each_jump() {
    assert_eq!(mirror(&vec![1, 2, 3, 2]), vec![3, 2, 1, 2]);
    assert_eq!(mirror(&vec![0, 1, 4, 2, 3]), vec![0, 4, 1, 3, 2]);
    assert_eq!(mirror(&vec![2, 2, 2, 2, 2]), vec![3, 3, 3, 3, 3]);
}

#[test]
fn dictionary_order() {
    assert!(lex_less(&vec![1, 2, 3], &vec![1, 3, 0]));
    assert!(!lex_less(&vec![1, 3, 0], &vec![1, 2, 3]));
    assert!(!lex_less(&vec![1, 2, 3], &vec![1, 2, 3]));
    assert!(lex_less(&vec![1, 2], &vec![1, 2, 0]));
    assert!(!lex_less(&vec![1, 2, 0], &vec![1, 2]));
    assert!(lex_less(&vec![], &vec![0]));
    assert!(!lex_less(&vec![], &vec![]));
    assert!(lex_less(&vec![-1], &vec![0]));
}

#[test]
fn lesser_keeps_the_first_of_equals() {
    assert_eq!(lesser_of(vec![1, 2], vec![1, 1]), vec![1, 1]);
    assert_eq!(lesser_of(vec![1, 1], vec![1, 2]), vec![1, 1]);
    assert_eq!(lesser_of(vec![3], vec![3]), vec![3]);
}

#[test]
fn least_rotation_is_found() {
    assert_eq!(least_rotation_of(&vec![2, 3, 2, 1]), vec![1, 2, 3, 2]);
    assert_eq!(least_rotation_of(&vec![3, 1, 2, 1, 3]), vec![1, 2, 1, 3, 3]);
    assert_eq!(least_rotation_of(&vec![5]), vec![5]);
}

#[test]
fn canonical_form_is_the_least_of_the_orbit() {
    assert_eq!(PolyPath::normalize_path(vec![2, 2, 2]), vec![1, 1, 1]);
    assert_eq!(PolyPath::normalize_path(vec![3, 3, 3, 3]), vec![1, 1, 1, 1]);
    assert_eq!(PolyPath::normalize_path(vec![2, 3, 2, 1]), vec![1, 2, 3, 2]);
    assert_eq!(PolyPath::normalize_path(vec![3, 3, 3, 3, 3]), vec![2, 2, 2, 2, 2]);
    assert_eq!(PolyPath::normalize_path(vec![4, 3, 1, 3, 4]), vec![1, 1, 2, 4, 2]);
    assert_eq!(PolyPath::normalize_path(vec![0]), vec![0]);
}

fn every_image(s: &Vec<i32>) -> Vec<Vec<i32>> {
    let mut images = Vec::new();
    for base in [s.clone(), reverse(s), mirror(s), reverse(&mirror(s))] {
        for k in 0..s.len() {
            images.push(rotate(&base, k));
        }
    }
    images
}

#[test]
fn canonical_form_is_the_same_all_over_the_orbit() {
    for s in [
        vec![1, 2, 4, 2, 1],
        vec![1, 1, 2, 4, 2],
        vec![1, 2, 3, 2],
        vec![1, 3, 5, 1, 3, 5],
        vec![2, 5, 3, 3, 5, 2, 1],
    ] {
        let canonical = PolyPath::normalize_path(s.clone());
        let images = every_image(&s);
        assert_eq!(images.len(), 4 * s.len());
        for image in &images {
            assert_eq!(PolyPath::normalize_path(image.clone()), canonical);
            assert!(!lex_less(image, &canonical));
        }
        assert!(images.contains(&canonical));
    }
}

#[test]
fn canonical_form_is_its_own_canonical_form() {
    for s in [vec![2, 3, 2, 1], vec![4, 3, 1, 3, 4], vec![5, 3, 1, 5, 3, 1], vec![2, 2, 2]] {
        let once = PolyPath::normalize_path(s);
        let twice = PolyPath::normalize_path(once.clone());
        assert_eq!(twice, once);
    }
}
