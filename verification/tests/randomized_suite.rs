use competitive_tools_rust::graph::dijkstra;
use competitive_tools_rust::graph::Edge;
use competitive_tools_rust::search::BinarySearch;
use competitive_tools_rust::union_find::UnionFindTree;
use competitive_tools_rust::vectools::sort_ascending;

fn next_state(state: &mut usize) -> usize {
    *state = state.wrapping_mul(6_364_136_223_846_793_005).wrapping_add(1_442_695_040_888_963_407);
    *state >> 33
}

#[test]
fn test_sort_ascending_matches_std_sort() {
    let mut state: usize = 1;
    for len in 0..40 {
        let mut v: Vec<usize> = (0..len).map(|_| next_state(&mut state) % 50).collect();
        let mut expected = v.clone();
        expected.sort();
        sort_ascending(&mut v);
        assert_eq!(v, expected);
    }
}

#[test]
fn test_union_find_matches_naive_partition() {
    let n = 12;
    let mut state: usize = 7;
    let mut tree = UnionFindTree::new(n);
    // Naive partition: a label per element, merged by relabelling.
    let mut label: Vec<usize> = (0..n).collect();
    for _ in 0..30 {
        let a = next_state(&mut state) % n;
        let b = next_state(&mut state) % n;
        tree.unite(a, b);
        let (la, lb) = (label[a], label[b]);
        if la != lb {
            for l in label.iter_mut() {
                if *l == lb {
                    *l = la;
                }
            }
        }
        for x in 0..n {
            for y in 0..n {
                assert_eq!(tree.is_same(x, y), label[x] == label[y]);
            }
        }
    }
}

#[test]
fn test_bounds_match_linear_scan() {
    let mut state: usize = 99;
    for len in 0..25 {
        let mut v: Vec<usize> = (0..len).map(|_| next_state(&mut state) % 20).collect();
        v.sort();
        for x in 0..22 {
            let lower = v.iter().position(|&e| e >= x).unwrap_or(len);
            let upper = v.iter().position(|&e| e > x).unwrap_or(len);
            assert_eq!(v.lower_bound(&x), lower);
            assert_eq!(v.upper_bound(&x), upper);
        }
    }
}

#[test]
fn test_dijkstra_matches_floyd_warshall() {
    let n = 8;
    let mut state: usize = 4242;
    for _ in 0..10 {
        let mut edges_list: Vec<Vec<Edge>> = vec![Vec::new(); n];
        let mut dist = vec![vec![usize::MAX; n]; n];
        for v in 0..n {
            dist[v][v] = 0;
        }
        for _ in 0..14 {
            let from = next_state(&mut state) % n;
            let to = next_state(&mut state) % n;
            let cost = next_state(&mut state) % 30;
            edges_list[from].push(Edge { to, cost });
            if cost < dist[from][to] {
                dist[from][to] = cost;
            }
        }
        for k in 0..n {
            for i in 0..n {
                for j in 0..n {
                    if dist[i][k] != usize::MAX && dist[k][j] != usize::MAX {
                        let through = dist[i][k] + dist[k][j];
                        if through < dist[i][j] {
                            dist[i][j] = through;
                        }
                    }
                }
            }
        }
        let reported = dijkstra(0, n, &edges_list);
        for v in 0..n {
            match reported[v] {
                Some(d) => assert_eq!(d, dist[0][v]),
                None => assert_eq!(dist[0][v], usize::MAX),
            }
        }
    }
}
