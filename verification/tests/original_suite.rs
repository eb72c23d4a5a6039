use competitive_tools_rust::coordinate_compression::compress;
use competitive_tools_rust::graph::AdjacencyList;
use competitive_tools_rust::graph::Dag;
use competitive_tools_rust::math::ModPow;
use competitive_tools_rust::maze::Maze;
use std::collections::HashMap;

const LAW: usize = 1_000_000_007;

#[test]
fn test_with_typical90_029_long_bricks() {
    let lr = vec![(27, 100), (8, 39), (83, 97), (24, 75)];
    let mut values: Vec<usize> = Vec::new();
    for (x, y) in lr {
        values.push(x);
        values.push(y);
    }
    let (compressed_values, _) = compress(values);
    let mut compressed_lr: Vec<(usize, usize)> = Vec::new();
    let mut i = 0;
    while i + 1 < compressed_values.len() {
        compressed_lr.push((compressed_values[i], compressed_values[i + 1]));
        i += 2;
    }
    assert_eq!(compressed_lr, vec![(2, 7), (0, 3), (5, 6), (1, 4)])
}

#[test]
fn test_topological_sort_for_cyclic() {
    let n = 4;
    let edges = vec![(1, 2), (2, 1), (2, 3), (4, 3), (4, 1), (1, 4), (2, 3)];
    let adjacency_list: Vec<Vec<usize>> = AdjacencyList::from_atcoder_tuples(n, &edges);
    assert_eq!(adjacency_list.topological_sort(), vec![0, 3, 1, 2]);
}

#[test]
fn test_topological_sort_for_cyclic2() {
    let n = 3;
    let edges = vec![(1, 2), (2, 3), (3, 1)];
    let adjacency_list: Vec<Vec<usize>> = AdjacencyList::from_atcoder_tuples(n, &edges);
    assert_eq!(adjacency_list.topological_sort(), vec![0, 1, 2]);
}

#[test]
fn test_topological_sort_for_one_edge() {
    let n = 4;
    let edges = vec![(2, 1)];
    let adjacency_list: Vec<Vec<usize>> = AdjacencyList::from_atcoder_tuples(n, &edges);
    assert_eq!(adjacency_list.topological_sort(), vec![3, 2, 1, 0]);
}

fn scc_cmp(n: usize, edges: Vec<(usize, usize)>, result: Vec<usize>) {
    let adjacency_list: Vec<Vec<usize>> = AdjacencyList::from_atcoder_tuples(n, &edges);
    assert_eq!(adjacency_list.strongly_connected_component(), result,);
}

#[test]
fn test_strongly_connected_component_for_one_hub() {
    scc_cmp(
        4,
        vec![(1, 2), (2, 1), (1, 3), (3, 1), (1, 4)],
        vec![0, 0, 0, 1],
    );
    scc_cmp(
        4,
        vec![(1, 2), (2, 1), (1, 3), (3, 1), (4, 1)],
        vec![1, 1, 1, 0],
    );
}

fn naive_modular_exponentiation(b: usize, e: usize, m: usize) -> usize {
    let mut exp = 1;
    for _ in 0..e {
        exp = (exp * b) % m;
    }
    exp
}

#[test]
fn test_mod_pow_in_small_case() {
    let b: usize = 2;
    let exp = 10;
    assert_eq!(b.mod_pow(exp, 5), 4);
}

#[test]
fn test_mod_pow_in_small_case2() {
    let b: usize = 2;
    let exp = 4;
    assert_eq!(b.mod_pow(exp, 5), 1);
}

#[test]
fn test_mod_pow_in_big_case() {
    let b: usize = 2019;
    let exp = 615;
    assert_eq!(b.mod_pow(exp, LAW), 492000830);
    assert_eq!(naive_modular_exponentiation(b, exp, LAW), 492000830);
}

#[test]
fn test_mod_pow_in_all_pattern() {
    for b in 0..100usize {
        for exp in 0..100 {
            for m in 2..100 {
                assert_eq!(b.mod_pow(exp, m), naive_modular_exponentiation(b, exp, m));
            }
        }
    }
}

#[test]
fn test_poj2386() {
    let n = 10;
    let m = 12;
    let input_lines = vec![
        "W........WW.".to_string(),
        ".WWW.....WWW".to_string(),
        "....WW...WW.".to_string(),
        ".........WW.".to_string(),
        ".........W..".to_string(),
        "..W......W..".to_string(),
        ".W.W.....WW.".to_string(),
        "W.W.W.....W.".to_string(),
        ".W.W......W.".to_string(),
        "..W.......W.".to_string(),
    ];
    let field: Vec<Vec<bool>> = input_lines
        .into_iter()
        .map(|line| line.chars().map(|c| c == 'W').collect())
        .collect();
    let mut maze: Maze<bool> = Maze {
        rows: n,
        columns: m,
        field,
    };
    let mut ans = 0;
    for x in 0..m {
        for y in 0..n {
            if maze.field[y][x] {
                maze.dfs(x, y);
                ans += 1;
            }
        }
    }
    for line in maze.field.iter() {
        assert!(line.iter().all(|&i| !i));
    }
    assert_eq!(ans, 3);
}

#[test]
fn test() {
    let strs = vec![
        "ab".to_string(),
        "bc".to_string(),
        "ab".to_string(),
        "ab".to_string(),
    ];
    let counter = strs.iter().fold(HashMap::new(), |mut counter, s| {
        *counter.entry(s).or_insert(0) += 1;
        counter
    });
    let mut expected = HashMap::new();
    let ab = "ab".to_string();
    let bc = "bc".to_string();
    expected.insert(&ab, 3);
    expected.insert(&bc, 1);
    assert_eq!(counter, expected);
}
