use aoc_2025::day11::{build_graph, legs_product, route_order, same_name, successors, Device, Order};
use pathfinding::directed::count_paths::count_paths;

const TEST_INPUT_1: &str = "aaa: you hhh
you: bbb ccc
bbb: ddd eee
ccc: ddd eee fff
ddd: ggg
eee: out
fff: out
ggg: out
hhh: ccc fff iii
iii: out
";

const TEST_INPUT_2: &str = "svr: aaa bbb
aaa: fft
fft: ccc
bbb: tty
tty: ccc
ccc: ddd eee
ddd: hub
hub: fff
eee: dac
dac: fff
fff: ggg hhh
ggg: out
hhh: out
";

fn routes(graph: &Vec<Device>, from: &str, to: &str) -> usize {
    count_paths(
        from.as_bytes().to_vec(),
        |node: &Vec<u8>| successors(graph, node),
        |node| same_name(node, to.as_bytes()),
    )
}

#[test]
fn day11_test_part_1() {
    let graph = build_graph(TEST_INPUT_1).unwrap();
    assert_eq!(routes(&graph, "you", "out"), 5);
}

#[test]
fn day11_test_part_2() {
    let graph = build_graph(TEST_INPUT_2).unwrap();
    let dac_fft = routes(&graph, "dac", "fft");
    let found = match route_order(dac_fft) {
        Order::DacFirst => legs_product(routes(&graph, "svr", "dac"), dac_fft, routes(&graph, "fft", "out")),
        Order::FftFirst => legs_product(
            routes(&graph, "svr", "fft"),
            routes(&graph, "fft", "dac"),
            routes(&graph, "dac", "out"),
        ),
    };
    assert_eq!(found, Some(2));
}

#[test]
fn devices_are_read() {
    let graph = build_graph("aaa: you hhh\nyou:\nb:c\n").unwrap();
    assert_eq!(graph.len(), 3);
    assert_eq!(graph[0].name, b"aaa".to_vec());
    assert_eq!(graph[0].outputs, vec![b"".to_vec(), b"you".to_vec(), b"hhh".to_vec()]);
    assert_eq!(graph[1].outputs, vec![b"".to_vec()]);
    assert_eq!(graph[2].outputs, vec![b"c".to_vec()]);
    assert!(build_graph("aaa: you\nbbb ccc\n").is_none());
    assert_eq!(build_graph("").unwrap().len(), 0);
}

#[test]
fn last_entry_of_a_name_counts() {
    let graph = build_graph("a: b\nc: d\na: e f\n").unwrap();
    assert_eq!(successors(&graph, b"a"), vec![b"".to_vec(), b"e".to_vec(), b"f".to_vec()]);
    assert_eq!(successors(&graph, b"c"), vec![b"".to_vec(), b"d".to_vec()]);
    assert_eq!(successors(&graph, b"x"), Vec::<Vec<u8>>::new());
    assert!(same_name(b"abc", b"abc"));
    assert!(!same_name(b"abc", b"abd"));
    assert!(!same_name(b"abc", b"ab"));
}

#[test]
fn legs_are_put_together() {
    assert_eq!(route_order(0), Order::FftFirst);
    assert_eq!(route_order(3), Order::DacFirst);
    assert_eq!(legs_product(2, 3, 7), Some(42));
    assert_eq!(legs_product(usize::MAX, 2, 0), Some(0));
    assert_eq!(legs_product(usize::MAX, 2, 1), None);
    assert_eq!(legs_product(usize::MAX, 1, 2), None);
    assert_eq!(legs_product(usize::MAX, 1, 1), Some(usize::MAX));
}
