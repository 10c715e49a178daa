use aoc_2025::day08::{solution_part1, solution_part2, update_clusters};
use std::collections::HashSet;

const TEST_INPUT: &str = "162,817,812
57,618,57
906,360,560
592,479,940
352,342,300
466,668,158
542,29,236
431,825,988
739,650,466
52,470,668
216,146,977
819,987,18
117,168,530
805,96,715
346,949,466
970,615,88
941,993,340
862,61,35
984,92,344
425,690,689
";

/// The points of the text, and the pairs of points in the order of their distances.
fn pairs_sorted_by_distance(text: &str) -> (Vec<(usize, usize)>, Vec<[u32; 3]>) {
    let points: Vec<[u32; 3]> = text
        .lines()
        .map(|line| {
            let mut parts = line.split(',').map(|p| p.parse().unwrap());
            [parts.next().unwrap(), parts.next().unwrap(), parts.next().unwrap()]
        })
        .collect();
    let mut pairs = Vec::new();
    for i in 0..points.len() {
        for j in (i + 1)..points.len() {
            let square = |k: usize| (points[i][k].abs_diff(points[j][k]) as f32).powf(2.);
            pairs.push(((i, j), (square(0) + square(1) + square(2)) as u32));
        }
    }
    pairs.sort_by(|a, b| a.1.partial_cmp(&b.1).unwrap());
    (pairs.into_iter().map(|(pair, _)| pair).collect(), points)
}

fn set(items: &[usize]) -> HashSet<usize> {
    items.iter().copied().collect()
}

#[test]
fn day08_test_part_1() {
    let (pairs, _) = pairs_sorted_by_distance(TEST_INPUT);
    assert_eq!(Some(40), solution_part1(&pairs, 10));
}

#[test]
fn day08_test_part_2() {
    let (pairs, points) = pairs_sorted_by_distance(TEST_INPUT);
    let xs: Vec<u32> = points.iter().map(|p| p[0]).collect();
    assert_eq!(Some(25272), solution_part2(&pairs, &xs));
}

#[test]
fn clusters_are_joined() {
    let mut clusters = vec![set(&[0, 1])];
    update_clusters(2, 3, &mut clusters);
    assert_eq!(clusters, vec![set(&[0, 1]), set(&[2, 3])]);
    update_clusters(3, 4, &mut clusters);
    assert_eq!(clusters, vec![set(&[0, 1]), set(&[2, 3, 4])]);
    update_clusters(5, 6, &mut clusters);
    update_clusters(6, 1, &mut clusters);
    assert_eq!(clusters, vec![set(&[0, 1, 5, 6]), set(&[2, 3, 4])]);
    update_clusters(0, 1, &mut clusters);
    assert_eq!(clusters, vec![set(&[0, 1, 5, 6]), set(&[2, 3, 4])]);
    update_clusters(4, 0, &mut clusters);
    assert_eq!(clusters, vec![set(&[0, 1, 2, 3, 4, 5, 6])]);
    update_clusters(9, 9, &mut clusters);
    assert_eq!(clusters, vec![set(&[0, 1, 2, 3, 4, 5, 6]), set(&[9])]);
}

#[test]
fn products_of_the_greatest_clusters() {
    let pairs = vec![(0, 1), (2, 3), (4, 5), (6, 7), (1, 2), (8, 9)];
    assert_eq!(solution_part1(&pairs, 0), Some(2));
    assert_eq!(solution_part1(&pairs, 1), Some(2));
    assert_eq!(solution_part1(&pairs, 2), Some(4));
    assert_eq!(solution_part1(&pairs, 4), Some(8));
    assert_eq!(solution_part1(&pairs, 5), Some(16));
    assert_eq!(solution_part1(&pairs, 6), Some(16));
    assert_eq!(solution_part1(&pairs, 100), Some(16));
}

#[test]
fn last_connection_is_found() {
    let xs = vec![3, 5, 7, 11];
    assert_eq!(solution_part2(&vec![(0, 1), (2, 3), (0, 1), (1, 2), (0, 3)], &xs), Some(35));
    assert_eq!(solution_part2(&vec![(0, 1), (2, 3)], &xs), None);
    assert_eq!(solution_part2(&vec![(0, 1)], &vec![4, 6]), Some(24));
    assert_eq!(
        solution_part2(&vec![(0, 1)], &vec![u32::MAX, u32::MAX]),
        Some(u32::MAX as u64 * u32::MAX as u64)
    );
}
