// The examples of the puzzles, part by part.

use aoc_2025::day10::batch::solution;
use aoc_2025::day10::decode::input_generator;
use aoc_2025::day10::machine::Machine;
use aoc_2025::{day01, day02, day03, day04, day05, day06, day07, day08, day09, day11};
use pathfinding::directed::count_paths::count_paths;

const DAY_01: &str = "L68\nL30\nR48\nL5\nR60\nL55\nL1\nL99\nR14\nL82\n";

const DAY_02: &str = "11-22,95-115,998-1012,1188511880-1188511890,222220-222224,\
1698522-1698528,446443-446449,38593856-38593862,565653-565659,\
824824821-824824827,2121212118-2121212124\n";

const DAY_03: &str = "987654321111111\n811111111111119\n234234234234278\n818181911112111\n";

const DAY_04: &str = "..@@.@@@@.
@@@.@.@.@@
@@@@@.@.@@
@.@@@@..@.
@@.@@@@.@@
.@@@@@@@.@
.@.@.@.@@@
@.@@@.@@@@
.@@@@@@@@.
@.@.@@@.@.
";

const DAY_05: &str = "3-5\n10-14\n16-20\n12-18\n\n1\n5\n8\n11\n17\n32\n";

const DAY_06: &str = "123 328  51 64 \n 45 64  387 23 \n  6 98  215 314\n*   +   *   +  \n";

const DAY_07: &str = ".......S.......
...............
.......^.......
...............
......^.^......
...............
.....^.^.^.....
...............
....^.^...^....
...............
...^.^...^.^...
...............
..^...^.....^..
...............
.^.^.^.^.^...^.
...............
";

const DAY_08: &str = "162,817,812
57,618,57
906,360,560
592,479,940
352,342,300
466,668,158
542,29,236
431,825,988
739,650,466
52,470,668
216,146,977
819,987,18
117,168,530
805,96,715
346,949,466
970,615,88
941,993,340
862,61,35
984,92,344
425,690,689
";

const DAY_09: &str = "7,1\n11,1\n11,7\n9,7\n9,5\n2,5\n2,3\n7,3\n";

const DAY_10: &str = "[.##.] (3) (1,3) (2) (2,3) (0,2) (0,1) {3,5,4,7}
[...#.] (0,2,3,4) (2,3) (0,4) (0,1,2) (1,2,3,4) {7,5,12,7,2}
[.###.#] (0,1,2,3,4) (0,3,4) (0,1,2,4,5) (1,2) {10,11,11,5,10,5}
";

const DAY_11_PART_1: &str = "aaa: you hhh
you: bbb ccc
bbb: ddd eee
ccc: ddd eee fff
ddd: ggg
eee: out
fff: out
ggg: out
hhh: ccc fff iii
iii: out
";

const DAY_11_PART_2: &str = "svr: aaa bbb
aaa: fft
fft: ccc
bbb: tty
tty: ccc
ccc: ddd eee
ddd: hub
hub: fff
eee: dac
dac: fff
fff: ggg hhh
ggg: out
hhh: out
";

/// The pairs of junction boxes in the order of their distances, and the first coordinates.
fn boxes(text: &str) -> (Vec<(usize, usize)>, Vec<u32>) {
    let points: Vec<Vec<u32>> =
        text.lines().map(|line| line.split(',').map(|p| p.parse().unwrap()).collect()).collect();
    let mut pairs = Vec::new();
    for i in 0..points.len() {
        for j in (i + 1)..points.len() {
            let square = |k: usize| (points[i][k].abs_diff(points[j][k]) as f32).powf(2.);
            pairs.push(((i, j), (square(0) + square(1) + square(2)) as u32));
        }
    }
    pairs.sort_by(|a, b| a.1.partial_cmp(&b.1).unwrap());
    (pairs.into_iter().map(|(pair, _)| pair).collect(), points.iter().map(|p| p[0]).collect())
}

fn routes(graph: &Vec<day11::Device>, from: &str, to: &str) -> usize {
    count_paths(
        from.as_bytes().to_vec(),
        |node: &Vec<u8>| day11::successors(graph, node),
        |node| day11::same_name(node, to.as_bytes()),
    )
}

#[test]
fn main_test_part_1() {
    assert_eq!(Some(3), day01::solution(DAY_01, day01::Part::One));
    assert_eq!(Some(1227775554), day02::solution(DAY_02, day02::Part::One));
    assert_eq!(Some(357), day03::solution_part1(DAY_03));
    let rolls = day04::parse_input(DAY_04).unwrap();
    assert!(day04::check_grid(&rolls));
    assert_eq!(13, day04::solution_part1(&rolls));
    let (id_ranges, ids) = day05::parse_puzzle_input(DAY_05).unwrap();
    assert_eq!(3, day05::solution_part1(&id_ranges, &ids));
    assert_eq!(Some(4277556), day06::solution_part1(DAY_06));
    assert_eq!(Some(21), day07::solution_part1(DAY_07));
    let (pairs, _) = boxes(DAY_08);
    assert_eq!(Some(40), day08::solution_part1(&pairs, 10));
    let polygon = day09::read_polygon(DAY_09).unwrap();
    assert!(day09::check_polygon(&polygon));
    assert_eq!(50, day09::solution_part1(&polygon));
    assert_eq!(solution(Machine::fewest_presses_lights, &input_generator(DAY_10).unwrap()), Ok(7));
    let graph = day11::build_graph(DAY_11_PART_1).unwrap();
    assert_eq!(routes(&graph, "you", "out"), 5);
}

#[test]
fn main_test_part_2() {
    assert_eq!(Some(6), day01::solution(DAY_01, day01::Part::Two));
    assert_eq!(Some(4174379265), day02::solution(DAY_02, day02::Part::Two));
    assert_eq!(Some(3121910778619), day03::solution_part2(DAY_03));
    let mut rolls = day04::parse_input(DAY_04).unwrap();
    assert!(day04::check_grid(&rolls));
    assert_eq!(43, day04::solution_part2(&mut rolls));
    let (id_ranges, _) = day05::parse_puzzle_input(DAY_05).unwrap();
    assert!(day05::check_ranges(&id_ranges));
    assert_eq!(14, day05::solution_part2(&id_ranges));
    assert_eq!(Some(3263827), day06::solution_part2(DAY_06));
    assert_eq!(Some(40), day07::solution_part2(DAY_07));
    let (pairs, xs) = boxes(DAY_08);
    assert_eq!(Some(25272), day08::solution_part2(&pairs, &xs));
    let polygon = day09::read_polygon(DAY_09).unwrap();
    assert!(day09::check_polygon(&polygon));
    assert_eq!(24, day09::solution_part2(&polygon));
    assert_eq!(solution(Machine::fewest_presses_joltage, &input_generator(DAY_10).unwrap()), Ok(33));
    let graph = day11::build_graph(DAY_11_PART_2).unwrap();
    let dac_fft = routes(&graph, "dac", "fft");
    let found = match day11::route_order(dac_fft) {
        day11::Order::DacFirst => {
            day11::legs_product(routes(&graph, "svr", "dac"), dac_fft, routes(&graph, "fft", "out"))
        }
        day11::Order::FftFirst => day11::legs_product(
            routes(&graph, "svr", "fft"),
            routes(&graph, "fft", "dac"),
            routes(&graph, "dac", "out"),
        ),
    };
    assert_eq!(found, Some(2));
}
