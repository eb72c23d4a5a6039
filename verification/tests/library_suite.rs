use competitive_tools_rust::bitset::Bitset;
use competitive_tools_rust::graph::dijkstra;
use competitive_tools_rust::graph::AdjacencyList;
use competitive_tools_rust::graph::BipartiteGraph;
use competitive_tools_rust::graph::Edge;
use competitive_tools_rust::clonetools::ClonePush;
use competitive_tools_rust::coordinate_compression::compress;
use competitive_tools_rust::coordinate_compression::compression_map;
use competitive_tools_rust::io::parse_tuple2;
use competitive_tools_rust::io::parse_tuple3;
use competitive_tools_rust::io::parse_tuple4;
use competitive_tools_rust::io::parse_values;
use competitive_tools_rust::math::is_prime;
use competitive_tools_rust::math::prime_factors;
use competitive_tools_rust::math::sieve_of_eratosthenes;
use competitive_tools_rust::math::smallest_prime_factor;
use competitive_tools_rust::math::AbsDiff;
use competitive_tools_rust::math::Divisors;
use competitive_tools_rust::math::Gcd;
use competitive_tools_rust::math::ModDiv;
use competitive_tools_rust::maze::parse_maze;
use competitive_tools_rust::maze::surround_wall;
use competitive_tools_rust::maze::Maze;
use competitive_tools_rust::my_itertools::run_length_encoding;
use competitive_tools_rust::search::bound;
use competitive_tools_rust::search::bound_usize;
use competitive_tools_rust::search::BinarySearch;
use competitive_tools_rust::union_find::UnionFindTree;
use competitive_tools_rust::vectools::count_items;
use competitive_tools_rust::vectools::sort_ascending;
use competitive_tools_rust::vectools::Vectools;
use std::collections::HashMap;

#[test]
fn test_is_prime_small_and_large() {
    assert_eq!(is_prime(0), false);
    assert_eq!(is_prime(1), false);
    assert_eq!(is_prime(2), true);
    assert_eq!(is_prime(3), true);
    assert_eq!(is_prime(4), false);
    assert_eq!(is_prime(5), true);
    assert_eq!(is_prime(9), false);
    assert_eq!(is_prime(1000000007), true);
    assert_eq!(is_prime(997764507000), false);
}

#[test]
fn test_smallest_prime_factor_cases() {
    assert_eq!(smallest_prime_factor(0), None);
    assert_eq!(smallest_prime_factor(1), None);
    assert_eq!(smallest_prime_factor(2), Some(2));
    assert_eq!(smallest_prime_factor(9), Some(3));
    assert_eq!(smallest_prime_factor(1000000007), Some(1000000007));
    assert_eq!(smallest_prime_factor(997764507000), Some(2));
}

#[test]
fn test_prime_factors_products() {
    assert_eq!(prime_factors(0), vec![]);
    assert_eq!(prime_factors(1), vec![]);
    assert_eq!(prime_factors(2), vec![2]);
    assert_eq!(prime_factors(24), vec![2, 2, 2, 3]);
    assert_eq!(
        prime_factors(997764507000),
        vec![2, 2, 2, 3, 3, 3, 5, 5, 5, 6079, 6079]
    );
}

#[test]
fn test_sieve_of_eratosthenes_bounds() {
    assert_eq!(
        sieve_of_eratosthenes(30),
        vec![2, 3, 5, 7, 11, 13, 17, 19, 23, 29]
    );
    assert_eq!(
        sieve_of_eratosthenes(31),
        vec![2, 3, 5, 7, 11, 13, 17, 19, 23, 29, 31]
    );
    assert_eq!(sieve_of_eratosthenes(1), vec![]);
}

#[test]
fn test_abs_diff_pairs() {
    assert_eq!(0usize.abs_diff(0), 0);
    assert_eq!(1usize.abs_diff(0), 1);
    assert_eq!(0usize.abs_diff(2), 2);
    assert_eq!(10usize.abs_diff(100), 90);
}

#[test]
fn test_gcd_pairs() {
    assert_eq!(24usize.gcd(32), 8);
    assert_eq!(32usize.gcd(24), 8);
    assert_eq!(1usize.gcd(7), 1);
    assert_eq!(7usize.gcd(1), 1);
    assert_eq!(0usize.gcd(99), 99);
    assert_eq!(99usize.gcd(0), 99);
    assert_eq!(0usize.gcd(0), 0);
}

#[test]
fn test_mod_div_small_cases() {
    assert_eq!(10usize.mod_div(1, 101), (10 / 1) % 101);
    assert_eq!(10usize.mod_div(2, 101), (10 / 2) % 101);
    assert_eq!(10usize.mod_div(5, 101), (10 / 5) % 101);
}

#[test]
fn test_checked_mod_div_results_and_errors() {
    assert_eq!(10usize.checked_mod_div(1, 101), Ok((10 / 1) % 101));
    assert_eq!(10usize.checked_mod_div(5, 101), Ok((10 / 5) % 101));
    assert_eq!(
        10usize.checked_mod_div(5, 100),
        Err("p: 100 is not prime".to_string())
    );
    assert_eq!(
        10usize.checked_mod_div(202, 101),
        Err("p: 101 and divisor: 202 are not relatively prime".to_string())
    );
    assert_eq!(202usize.checked_mod_div(5, 101), Ok(0));
}

#[test]
fn test_divisors_lists() {
    assert_eq!(1usize.divisors(), vec![1]);
    assert_eq!(2usize.divisors(), vec![1, 2]);
    assert_eq!(3usize.divisors(), vec![1, 3]);
    assert_eq!(4usize.divisors(), vec![1, 2, 4]);
    assert_eq!(24usize.divisors(), vec![1, 2, 3, 4, 6, 8, 12, 24]);
    assert_eq!(0usize.divisors(), vec![]);
}

#[test]
fn test_bitset_operations() {
    assert_eq!(5usize.is_bit_on(0), true);
    assert_eq!(5usize.is_bit_on(1), false);
    assert_eq!(5usize.is_bit_on(2), true);
    assert_eq!(5usize.is_bit_on(3), false);
    assert_eq!(5usize.toggled_bit(0), 4);
    assert_eq!(5usize.toggled_bit(1), 7);
    assert_eq!(5usize.toggled_bit(2), 1);
    assert_eq!(5usize.toggled_bit(3), 13);
    assert_eq!(5usize.turned_bit_on(0), 5);
    assert_eq!(5usize.turned_bit_on(1), 7);
    assert_eq!(5usize.turned_bit_on(3), 13);
    assert_eq!(5usize.turned_bit_off(0), 4);
    assert_eq!(5usize.turned_bit_off(1), 5);
    assert_eq!(5usize.turned_bit_off(2), 1);
    assert_eq!(5usize.to_bit_vec(4), vec![true, false, true, false]);
}

#[test]
fn test_clone_push_appends() {
    let v = vec![2, 5, 8];
    let new_v = v.clone_push(1);
    assert_eq!(new_v, vec![2, 5, 8, 1]);
    assert_eq!(v, vec![2, 5, 8]);
}

#[test]
fn test_run_length_encoding_runs() {
    assert_eq!(
        run_length_encoding(&['o', 'o', 'x', 'o']),
        vec![('o', 2), ('x', 1), ('o', 1)]
    );
    assert_eq!(run_length_encoding(&['o', 'o', 'o', 'o']), vec![('o', 4)]);
    assert_eq!(
        run_length_encoding(&[7usize, 7, 5, 3]),
        vec![(7, 2), (5, 1), (3, 1)]
    );
}

#[test]
fn test_bound_brackets_the_boundary() {
    assert_eq!(bound(0, 100, |i| i * i >= 48), (6, 7));
    assert_eq!(bound(0, 100, |i| i * i > 48), (6, 7));
    assert_eq!(bound(0, 100, |i| i * i >= 49), (6, 7));
    assert_eq!(bound(0, 100, |i| i * i > 49), (7, 8));
    assert_eq!(bound(0, 100, |i| i * i >= 50), (7, 8));
    assert_eq!(bound(0, 100, |i| i * i > 50), (7, 8));
}

#[test]
fn test_bound_usize_brackets_the_boundary() {
    assert_eq!(bound_usize(0, 100, |i| i * i >= 48), (6, 7));
    assert_eq!(bound_usize(0, 100, |i| i * i > 48), (6, 7));
    assert_eq!(bound_usize(0, 100, |i| i * i >= 49), (6, 7));
    assert_eq!(bound_usize(0, 100, |i| i * i > 49), (7, 8));
    assert_eq!(bound_usize(0, 100, |i| i * i >= 50), (7, 8));
    assert_eq!(bound_usize(0, 100, |i| i * i > 50), (7, 8));
}

#[test]
fn test_lower_and_upper_bound_positions() {
    let v: Vec<usize> = vec![2, 3, 3, 5, 6];
    assert_eq!(v.lower_bound(&0), 0);
    assert_eq!(v.lower_bound(&2), 0);
    assert_eq!(v.lower_bound(&3), 1);
    assert_eq!(v.lower_bound(&4), 3);
    assert_eq!(v.lower_bound(&6), 4);
    assert_eq!(v.lower_bound(&8), 5);
    assert_eq!(v.upper_bound(&0), 0);
    assert_eq!(v.upper_bound(&2), 1);
    assert_eq!(v.upper_bound(&3), 3);
    assert_eq!(v.upper_bound(&5), 4);
    assert_eq!(v.upper_bound(&8), 5);
}

#[test]
fn test_union_find_roots_and_sets() {
    let mut tree = UnionFindTree::new(3);
    assert_eq!(tree.root(0), 0);
    assert_eq!(tree.root(1), 1);
    assert_eq!(tree.root(2), 2);
    assert!(!tree.is_same(0, 1));
    assert!(!tree.is_same(1, 2));
    tree.unite(0, 1);
    assert!(tree.is_same(0, 1));
    assert!(!tree.is_same(1, 2));
    tree.unite(1, 2);
    assert!(tree.is_same(0, 1));
    assert!(tree.is_same(1, 2));
    assert!(tree.is_same(0, 2));
    let mut tree2 = UnionFindTree::new(3);
    tree2.unite(0, 2);
    assert_eq!(tree2.root(0), tree2.root(2));
}

#[test]
fn test_keep_retains_flagged_items() {
    let mut v = vec![1, 2, 3, 4, 5];
    let bools = vec![false, true, true, false, true];
    v.keep(&bools);
    assert_eq!(v, vec![2, 3, 5]);
}

#[test]
fn test_count_items_counts() {
    let v = [2usize, 5, 8, 5];
    let mut expected = HashMap::new();
    expected.insert(2usize, 1usize);
    expected.insert(5, 2);
    expected.insert(8, 1);
    assert_eq!(count_items(&v), expected);
}

#[test]
fn test_sort_ascending_orders_a_permutation() {
    let mut v = vec![9, 3, 6, 2, 3];
    sort_ascending(&mut v);
    assert_eq!(v, vec![2, 3, 3, 6, 9]);
}

#[test]
fn test_compress_examples() {
    assert_eq!(compress(vec![2, 5, 8]), (vec![0, 1, 2], 3));
    assert_eq!(compress(vec![9, 3, 6, 2]), (vec![3, 1, 2, 0], 4));
    assert_eq!(compress(vec![2, 5, 8, 5]), (vec![0, 1, 2, 1], 3));
    assert_eq!(compress(vec![7, 7, 7, 7]), (vec![0, 0, 0, 0], 1));
}

#[test]
fn test_compression_map_slots() {
    let (map, w) = compression_map(vec![2, 5, 8]);
    assert_eq!(w, 3);
    assert_eq!(map.len(), 9);
    assert_eq!(map[2], Some(0));
    assert_eq!(map[5], Some(1));
    assert_eq!(map[8], Some(2));
    assert_eq!(map[0], None);
    assert_eq!(map[7], None);
}

#[test]
fn test_parse_values_reads_tokens() {
    assert_eq!(parse_values("1 2 3", 3), Some(vec![1, 2, 3]));
    assert_eq!(parse_values("  10\t20 ", 2), Some(vec![10, 20]));
    assert_eq!(parse_values("1 2 3 4", 2), Some(vec![1, 2]));
    assert_eq!(parse_values("1 x", 2), None);
    assert_eq!(parse_values("1", 2), None);
    assert_eq!(parse_values("99999999999999999999999999", 1), None);
}

#[test]
fn test_parse_tuples_read_tokens() {
    assert_eq!(parse_tuple2("3 4"), Some((3, 4)));
    assert_eq!(parse_tuple2("3"), None);
    assert_eq!(parse_tuple3("5 6 7"), Some((5, 6, 7)));
    assert_eq!(parse_tuple4("1 2 3 4"), Some((1, 2, 3, 4)));
    assert_eq!(parse_tuple4("1 2 3 d"), None);
}

#[test]
fn test_parse_maze_marks_walls() {
    let lines = vec!["W.".to_string(), ".W".to_string()];
    let parsed = parse_maze(&lines, 'W');
    assert_eq!(parsed, vec![vec![false, true], vec![true, false]]);
}

#[test]
fn test_surround_wall_adds_border() {
    let mut maze = vec![vec![true]];
    surround_wall(&mut maze);
    assert_eq!(
        maze,
        vec![
            vec![false, false, false],
            vec![false, true, false],
            vec![false, false, false],
        ]
    );
}

#[test]
fn test_movable_positions_stay_on_field() {
    let maze: Maze<bool> = Maze {
        rows: 2,
        columns: 2,
        field: vec![vec![true, true], vec![true, true]],
    };
    assert_eq!(maze.movable_positions(0, 0), vec![(1, 0), (0, 1), (1, 1)]);
    assert_eq!(
        maze.movable_positions(1, 1),
        vec![(0, 0), (1, 0), (0, 1)]
    );
}

#[test]
fn test_dijkstra_reports_shortest_distances() {
    // 0 -> 1 (7), 0 -> 2 (2), 2 -> 1 (3), 1 -> 3 (1)
    let edges_list = vec![
        vec![Edge { to: 1, cost: 7 }, Edge { to: 2, cost: 2 }],
        vec![Edge { to: 3, cost: 1 }],
        vec![Edge { to: 1, cost: 3 }],
        vec![],
        vec![],
    ];
    let dists = dijkstra(0, 5, &edges_list);
    assert_eq!(dists, vec![Some(0), Some(5), Some(2), Some(6), None]);
}

#[test]
fn test_bi_partition_splits_the_vertices() {
    // 0
    // |
    // 1--3
    // |
    // 2
    let adjacency_list: Vec<Vec<usize>> = vec![
        vec![1],
        vec![0, 2, 3],
        vec![1],
        vec![1],
    ];
    assert_eq!(adjacency_list.bi_partition(), (vec![0, 2, 3], vec![1]));
    // 0
    // |
    // 2--5
    // |
    // 4
    // |
    // 1
    // |
    // 3
    let adjacency_list: Vec<Vec<usize>> = vec![
        vec![2],
        vec![3, 4],
        vec![0, 4, 5],
        vec![1],
        vec![1, 2],
        vec![2],
    ];
    assert_eq!(adjacency_list.bi_partition(), (vec![0, 3, 4, 5], vec![1, 2]));
}

#[test]
fn test_rev_edge_direction_flips_edges() {
    let adjacency_list: Vec<Vec<usize>> = vec![
        vec![1, 3],
        vec![0, 2, 2],
        vec![],
        vec![2, 0],
    ];
    assert_eq!(
        AdjacencyList::rev_edge_direction(&adjacency_list),
        vec![vec![1, 3], vec![0], vec![1, 1, 3], vec![0]]
    );
}

#[test]
fn test_run_length_encoding_single_item() {
    assert_eq!(run_length_encoding(&[9usize]), vec![(9, 1)]);
}

#[test]
fn test_parse_values_zero_tokens() {
    assert_eq!(parse_values("anything at all", 0), Some(vec![]));
    assert_eq!(parse_values("", 0), Some(vec![]));
}

#[test]
fn test_compress_single_distinct_value() {
    assert_eq!(compress(vec![42]), (vec![0], 1));
}

#[test]
fn test_sort_ascending_handles_empty_and_sorted() {
    let mut v: Vec<usize> = vec![];
    sort_ascending(&mut v);
    assert_eq!(v, vec![]);
    let mut w = vec![1, 2, 3];
    sort_ascending(&mut w);
    assert_eq!(w, vec![1, 2, 3]);
}
