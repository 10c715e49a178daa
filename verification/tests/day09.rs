use aoc_2025::day09::{
    check_polygon, edge_intersects_rect, is_pt_on_edge, is_rectangle_valid, read_polygon,
    rectangle_area, solution_part1, solution_part2, Point, Rectangle,
};

const TEST_INPUT: &str = "7,1
11,1
11,7
9,7
9,5
2,5
2,3
7,3
";

fn at(x: u32, y: u32) -> Point {
    Point { x, y }
}

#[test]
fn test_is_square_valid() {
    let polygon = read_polygon(TEST_INPUT).unwrap();
    assert!(check_polygon(&polygon));

    assert!(is_rectangle_valid(&Point { x: 9, y: 5 }, &Point { x: 2, y: 3 }, &polygon));
    assert!(is_rectangle_valid(&Point { x: 7, y: 1 }, &Point { x: 11, y: 1 }, &polygon));
}

#[test]
fn day09_test_part_1() {
    let polygon = read_polygon(TEST_INPUT).unwrap();
    assert!(check_polygon(&polygon));
    assert_eq!(50, solution_part1(&polygon));
}

#[test]
fn day09_test_part_2() {
    let polygon = read_polygon(TEST_INPUT).unwrap();
    assert!(check_polygon(&polygon));
    assert_eq!(24, solution_part2(&polygon));
}

#[test]
fn rectangles_are_made_of_two_corners() {
    let r = Rectangle::new(&at(9, 3), &at(2, 5));
    assert_eq!(r, Rectangle { x_min: 2, x_max: 9, y_min: 3, y_max: 5 });
    assert_eq!(Rectangle::new(&at(4, 4), &at(4, 4)), Rectangle { x_min: 4, x_max: 4, y_min: 4, y_max: 4 });
    assert_eq!(rectangle_area(&at(9, 3), &at(2, 5)), 24);
    assert_eq!(rectangle_area(&at(4, 4), &at(4, 4)), 1);
    assert_eq!(rectangle_area(&at(0, 0), &at(u32::MAX - 1, u32::MAX - 1)), (u32::MAX as u64).pow(2));
}

#[test]
fn points_on_edges() {
    assert!(is_pt_on_edge(&at(2, 4), &at(2, 5), &at(2, 3)));
    assert!(is_pt_on_edge(&at(2, 5), &at(2, 5), &at(2, 3)));
    assert!(!is_pt_on_edge(&at(2, 6), &at(2, 5), &at(2, 3)));
    assert!(!is_pt_on_edge(&at(3, 4), &at(2, 5), &at(2, 3)));
    assert!(is_pt_on_edge(&at(7, 1), &at(7, 1), &at(11, 1)));
    assert!(is_pt_on_edge(&at(7, 9), &at(7, 1), &at(11, 1)));
    assert!(!is_pt_on_edge(&at(9, 1), &at(7, 1), &at(11, 1)));
}

#[test]
fn edges_through_rectangles() {
    let r = Rectangle { x_min: 2, x_max: 9, y_min: 3, y_max: 7 };
    assert!(edge_intersects_rect(&at(0, 5), &at(4, 5), &r));
    assert!(edge_intersects_rect(&at(5, 0), &at(5, 9), &r));
    assert!(!edge_intersects_rect(&at(0, 3), &at(11, 3), &r));
    assert!(!edge_intersects_rect(&at(0, 5), &at(2, 5), &r));
    assert!(!edge_intersects_rect(&at(9, 0), &at(9, 9), &r));
    assert!(edge_intersects_rect(&at(3, 4), &at(3, 5), &r));
}

#[test]
fn loops_are_read_and_checked() {
    assert_eq!(read_polygon("1,2\n3,4,5\n"), Some(vec![at(1, 2), at(3, 4)]));
    assert_eq!(read_polygon(""), Some(vec![]));
    assert_eq!(read_polygon("1,2\n3\n"), None);
    assert_eq!(read_polygon("1,x\n"), None);
    assert_eq!(read_polygon("4294967296,1\n"), None);
    assert!(check_polygon(&vec![]));
    assert!(!check_polygon(&vec![at(1, 1)]));
    assert!(check_polygon(&vec![at(1, 1), at(1, 5)]));
    assert!(!check_polygon(&vec![at(1, 1), at(2, 5)]));
    assert!(!check_polygon(&vec![at(1, 1), at(1, u32::MAX)]));
}

#[test]
fn greatest_rectangles_of_small_loops() {
    assert_eq!(solution_part1(&vec![]), 0);
    assert_eq!(solution_part1(&vec![at(3, 3)]), 0);
    assert_eq!(solution_part1(&vec![at(3, 3), at(3, 8)]), 6);
    let square = vec![at(0, 0), at(4, 0), at(4, 4), at(0, 4)];
    assert_eq!(solution_part1(&square), 25);
    assert_eq!(solution_part2(&square), 25);
    assert_eq!(solution_part2(&vec![]), 0);
}
