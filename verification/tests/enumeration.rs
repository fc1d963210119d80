use polypaths::paths::{find_paths, generate_possibility, PathError, PolyPath};
use polypaths::walk::validate_path;

fn paths_of(n: i32) -> Vec<PolyPath> {
    find_paths(n).expect("a polygon of at least three corners")
}

fn jumps_of_all(paths: &[PolyPath]) -> Vec<Vec<i32>> {
    paths.iter().map(|p| p.path.clone()).collect()
}

#[test]
fn triangle_has_one_path() {
    let paths = paths_of(3);
    assert_eq!(paths.len(), 1);
    assert_eq!(paths[0].size, 3);
    assert_eq!(paths[0].path, vec![1, 1, 1]);
}

#[test]
fn both_ranks_of_the_triangle_give_the_same_path() {
    let first = PolyPath::new_from_verts(&generate_possibility(0, 3));
    let second = PolyPath::new_from_verts(&generate_possibility(1, 3));
    assert_eq!(first, second);
    assert_eq!(first.size, 3);
    assert_eq!(first.path, vec![1, 1, 1]);
}

#[test]
fn square_has_its_boundary_and_the_bow_tie() {
    let paths = paths_of(4);
    assert_eq!(jumps_of_all(&paths), vec![vec![1, 1, 1, 1], vec![1, 2, 3, 2]]);
    assert!(paths.iter().all(|p| p.size == 4));
}

#[test]
fn pentagon_has_four_paths() {
    let paths = paths_of(5);
    assert_eq!(
        jumps_of_all(&paths),
        vec![
            vec![1, 1, 1, 1, 1],
            vec![1, 1, 2, 4, 2],
            vec![1, 2, 1, 3, 3],
            vec![2, 2, 2, 2, 2],
        ]
    );
    assert!(paths.iter().all(|p| p.size == 5));
}

#[test]
fn hexagon_has_several_paths() {
    let paths = paths_of(6);
    assert!(paths.len() >= 2);
    assert_eq!(paths.len(), 12);
    assert_eq!(paths[0].path, vec![1, 1, 1, 1, 1, 1]);
}

#[test]
fn counts_are_those_of_polygons_up_to_symmetry() {
    let expected = [1usize, 2, 4, 12, 39, 202, 1219];
    for (i, want) in expected.iter().enumerate() {
        let n = 3 + i as i32;
        assert_eq!(paths_of(n).len(), *want, "n = {}", n);
    }
}

#[test]
fn no_path_is_listed_twice() {
    for n in 3..=9 {
        let paths = paths_of(n);
        for i in 0..paths.len() {
            for j in i + 1..paths.len() {
                assert_ne!(paths[i], paths[j], "n = {}", n);
            }
        }
    }
}

#[test]
fn paths_come_in_ascending_order() {
    for n in 3..=8 {
        let paths = paths_of(n);
        let mut sorted = paths.clone();
        sorted.sort();
        assert_eq!(sorted, paths);
        for pair in paths.windows(2) {
            assert!(pair[0].precedes(&pair[1]));
            assert!(!pair[1].precedes(&pair[0]));
        }
    }
}

#[test]
fn every_path_is_a_canonical_jump_sequence() {
    for n in 3..=8 {
        for p in paths_of(n) {
            assert_eq!(p.size, n);
            assert_eq!(p.path.len(), n as usize);
            assert!(p.path.iter().all(|&j| 1 <= j && j < n));
            assert!(validate_path(&p.path));
            assert_eq!(PolyPath::normalize_path(p.path.clone()), p.path);
        }
    }
}

#[test]
fn every_rank_is_listed_under_its_shape() {
    let n = 6;
    let paths = paths_of(n);
    for rank in 0..120 {
        let p = PolyPath::new_from_verts(&generate_possibility(rank, n));
        assert!(paths.contains(&p), "rank {}", rank);
    }
}

#[test]
fn too_few_corners_are_rejected() {
    assert_eq!(find_paths(2), Err(PathError::TooFewCorners));
    assert_eq!(find_paths(1), Err(PathError::TooFewCorners));
    assert_eq!(find_paths(0), Err(PathError::TooFewCorners));
    assert_eq!(find_paths(-5), Err(PathError::TooFewCorners));
    assert!(find_paths(3).is_ok());
}
