use vstd::prelude::*;

verus! {

/// An adjacency list is a well-formed graph when every edge target is a
/// vertex: the number of vertices is the length of the outer vector.
pub open spec fn valid_graph(g: Seq<Vec<usize>>) -> bool {
    forall|i: int, j: int|
        0 <= i < g.len() && 0 <= j < g[i]@.len() ==> #[trigger] g[i]@[j] < g.len()
}

/// How many entries of `s` are false.
pub open spec fn count_false(s: Seq<bool>) -> nat
    decreases s.len(),
{
    if s.len() == 0 {
        0
    } else {
        count_false(s.drop_last()) + (if s.last() {
            0nat
        } else {
            1nat
        })
    }
}

/// Marking one unmarked entry lowers the count of false entries by one.
proof fn lemma_count_false_update(s: Seq<bool>, i: int)
    requires
        0 <= i < s.len(),
        !s[i],
    ensures
        count_false(s.update(i, true)) + 1 == count_false(s),
    decreases s.len(),
{
    let t = s.update(i, true);
    if i == s.len() - 1 {
        assert(t.drop_last() =~= s.drop_last());
    } else {
        assert(t.drop_last() =~= s.drop_last().update(i, true));
        lemma_count_false_update(s.drop_last(), i);
    }
}

/// Marking entries never raises the count of false entries.
proof fn lemma_count_false_mono(s1: Seq<bool>, s2: Seq<bool>)
    requires
        s1.len() == s2.len(),
        forall|k: int| 0 <= k < s1.len() ==> (s1[k] ==> #[trigger] s2[k]),
    ensures
        count_false(s2) <= count_false(s1),
    decreases s1.len(),
{
    if s1.len() > 0 {
        lemma_count_false_mono(s1.drop_last(), s2.drop_last());
    }
}

/// Appending an item adds exactly that item to what a sequence contains.
proof fn lemma_push_contains<T>(s: Seq<T>, x: T, y: T)
    ensures
        s.push(x).contains(y) <==> (s.contains(y) || x == y),
{
    if s.contains(y) {
        let t = choose|t: int| 0 <= t < s.len() && s[t] == y;
        assert(s.push(x)[t] == y);
    }
    if s.push(x).contains(y) && x != y {
        let t = choose|t: int| 0 <= t < s.push(x).len() && s.push(x)[t] == y;
        assert(s[t] == y);
    }
    assert(s.push(x)[s.len() as int] == x);
}

/// The set of the first `n` vertex numbers has `n` members.
proof fn lemma_vertex_range_card(n: nat)
    requires
        n <= usize::MAX,
    ensures
        Set::new(|v: usize| (v as nat) < n).len() == n,
        Set::new(|v: usize| (v as nat) < n).finite(),
    decreases n,
{
    let s = Set::new(|v: usize| (v as nat) < n);
    if n == 0 {
        assert(s =~= Set::empty());
    } else {
        lemma_vertex_range_card((n - 1) as nat);
        let s0 = Set::new(|v: usize| (v as nat) < n - 1);
        assert(s =~= s0.insert((n - 1) as usize));
    }
}

/// Post-order depth-first search: marks every vertex reachable from `i`
/// through unmarked vertices, and appends each newly marked vertex to
/// `rev_order` once its whole subtree is finished (so `i` comes last).
#[verifier::loop_isolation(false)]
fn post_order_dfs(me: &Vec<Vec<usize>>, seen: &mut Vec<bool>, i: usize, rev_order: &mut Vec<usize>)
    requires
        valid_graph(me@),
        old(seen)@.len() == me@.len(),
        i < me@.len(),
        !old(seen)@[i as int],
        old(rev_order)@.no_duplicates(),
        forall|t: int|
            0 <= t < old(rev_order)@.len() ==> #[trigger] old(rev_order)@[t] < me@.len() && old(
                seen,
            )@[old(rev_order)@[t] as int],
    ensures
        final(seen)@.len() == me@.len(),
        forall|k: int| 0 <= k < me@.len() ==> (old(seen)@[k] ==> #[trigger] final(seen)@[k]),
        final(seen)@[i as int],
        final(rev_order)@.no_duplicates(),
        forall|t: int|
            0 <= t < final(rev_order)@.len() ==> #[trigger] final(rev_order)@[t] < me@.len()
                && final(seen)@[final(rev_order)@[t] as int],
        forall|v: usize|
            (v as int) < me@.len() ==> (final(rev_order)@.contains(v) <==> (old(
                rev_order,
            )@.contains(v) || (final(seen)@[v as int] && !old(seen)@[v as int]))),
    decreases count_false(old(seen)@),
{
    let ghost seen0 = old(seen)@;
    let ghost rev0 = old(rev_order)@;
    let n = me.len();
    seen[i] = true;
    let ghost seen1 = seen@;
    proof {
        lemma_count_false_update(seen0, i as int);
    }
    let mut j: usize = 0;
    while j < me[i].len()
        invariant
            valid_graph(me@),
            i < me@.len(),
            j <= me@[i as int]@.len(),
            seen@.len() == me@.len(),
            seen1.len() == me@.len(),
            seen1 == seen0.update(i as int, true),
            count_false(seen1) + 1 == count_false(seen0),
            seen@[i as int],
            forall|k: int| 0 <= k < me@.len() ==> (seen1[k] ==> #[trigger] seen@[k]),
            rev_order@.no_duplicates(),
            forall|t: int|
                0 <= t < rev_order@.len() ==> #[trigger] rev_order@[t] < me@.len()
                    && seen@[rev_order@[t] as int],
            forall|v: usize|
                (v as int) < me@.len() ==> (rev_order@.contains(v) <==> (rev0.contains(v) || (
                seen@[v as int] && !seen1[v as int]))),
        decreases me@[i as int]@.len() - j,
    {
        let to = me[i][j];
        if !seen[to] {
            let ghost seen_mid = seen@;
            let ghost rev_mid = rev_order@;
            proof {
                lemma_count_false_mono(seen1, seen@);
            }
            post_order_dfs(me, seen, to, rev_order);
            proof {
                assert forall|v: usize| (v as int) < me@.len() implies (rev_order@.contains(v)
                    <==> (rev0.contains(v) || (seen@[v as int] && !seen1[v as int]))) by {
                    assert(rev_order@.contains(v) <==> (rev_mid.contains(v) || (seen@[v as int]
                        && !seen_mid[v as int])));
                }
            }
        }
        j = j + 1;
    }
    proof {
        if rev_order@.contains(i) {
            assert(rev0.contains(i) || (seen@[i as int] && !seen1[i as int]));
            if rev0.contains(i) {
                let t = choose|t: int| 0 <= t < rev0.len() && rev0[t] == i;
                assert(seen0[rev0[t] as int]);
            }
            assert(false);
        }
        let s = rev_order@;
        assert forall|t1: int, t2: int|
            0 <= t1 < s.push(i).len() && 0 <= t2 < s.push(i).len() && t1 != t2 implies s.push(i)[t1]
            != s.push(i)[t2] by {
            if t1 < s.len() && t2 < s.len() {
            } else if t1 == s.len() {
                assert(s.push(i)[t2] == s[t2]);
                if s[t2] == i {
                    assert(s.contains(i));
                }
            } else {
                assert(s.push(i)[t1] == s[t1]);
                if s[t1] == i {
                    assert(s.contains(i));
                }
            }
        }
        assert forall|v: usize| (v as int) < me@.len() implies (rev_order@.push(i).contains(v)
            <==> (rev0.contains(v) || (seen@[v as int] && !seen0[v as int]))) by {
            lemma_push_contains(rev_order@, i, v);
            assert(rev_order@.contains(v) <==> (rev0.contains(v) || (seen@[v as int]
                && !seen1[v as int])));
            if v == i {
                assert(seen@[i as int] && !seen0[i as int]);
            } else {
                assert(seen1[v as int] == seen0[v as int]);
            }
        }
    }
    rev_order.push(i);
}

/// Directed Acyclic Graph
pub trait Dag {
    /// Whether the receiver is a well-formed adjacency list.
    spec fn graph_wf(&self) -> bool;

    /// Everything `topological_sort` promises of its result.
    spec fn topological_sort_post(&self, r: Vec<usize>) -> bool;

    /// Returns vertexes in topologically sorted order
    fn topological_sort(&self) -> (r: Vec<usize>)
        requires
            self.graph_wf(),
        ensures
            self.topological_sort_post(r),
    ;
}

/// Vec<Vec<usize>> as Adjacency List
/// self[i] returns edges from i vertex
/// The number of Vertex is self.len()
impl Dag for Vec<Vec<usize>> {
    open spec fn graph_wf(&self) -> bool {
        valid_graph(self@)
    }

    /// The result lists every vertex exactly once: it is a permutation of
    /// the vertex numbers, obtained by reversing a post-order traversal.
    open spec fn topological_sort_post(&self, r: Vec<usize>) -> bool {
        &&& r@.len() == self@.len()
        &&& r@.no_duplicates()
        &&& forall|t: int| 0 <= t < r@.len() ==> #[trigger] r@[t] < self@.len()
        &&& forall|v: usize| (v as int) < self@.len() ==> r@.contains(v)
    }

    fn topological_sort(&self) -> (r: Vec<usize>) {
        let n = self.len();
        let mut seen: Vec<bool> = Vec::new();
        let mut k: usize = 0;
        while k < n
            invariant
                seen@.len() == k <= n,
                forall|t: int| 0 <= t < k ==> !(#[trigger] seen@[t]),
            decreases n - k,
        {
            seen.push(false);
            k = k + 1;
        }
        let mut rev_order: Vec<usize> = Vec::new();
        let mut i: usize = 0;
        while i < n
            invariant
                valid_graph(self@),
                n == self@.len(),
                seen@.len() == n,
                i <= n,
                forall|t: int| 0 <= t < i ==> #[trigger] seen@[t],
                rev_order@.no_duplicates(),
                forall|t: int|
                    0 <= t < rev_order@.len() ==> #[trigger] rev_order@[t] < n
                        && seen@[rev_order@[t] as int],
                forall|v: usize| (v as int) < n ==> (rev_order@.contains(v) <==> seen@[v as int]),
            decreases n - i,
        {
            if !seen[i] {
                let ghost seen_mid = seen@;
                let ghost rev_mid = rev_order@;
                post_order_dfs(self, &mut seen, i, &mut rev_order);
                proof {
                    assert forall|v: usize| (v as int) < n implies (rev_order@.contains(v) <==> (
                    seen@[v as int])) by {
                        assert(rev_order@.contains(v) <==> (rev_mid.contains(v) || (seen@[v as int]
                            && !seen_mid[v as int])));
                    }
                }
            }
            i = i + 1;
        }
        proof {
            let s = rev_order@;
            let vs = Set::new(|v: usize| (v as nat) < n as nat);
            lemma_vertex_range_card(n as nat);
            s.unique_seq_to_set();
            assert(s.to_set() =~= vs) by {
                assert forall|v: usize| vs.contains(v) implies s.to_set().contains(v) by {
                    assert(s.contains(v));
                }
                assert forall|v: usize| s.to_set().contains(v) implies vs.contains(v) by {
                    assert(s.contains(v));
                    let t = choose|t: int| 0 <= t < s.len() && s[t] == v;
                }
            }
            assert(s.len() == n);
        }
        let mut result: Vec<usize> = Vec::new();
        let mut t: usize = n;
        while t > 0
            invariant
                rev_order@.len() == n,
                result@.len() == n - t,
                t <= n,
                forall|k: int|
                    0 <= k < result@.len() ==> #[trigger] result@[k] == rev_order@[n - 1 - k],
            decreases t,
        {
            t = t - 1;
            result.push(rev_order[t]);
        }
        proof {
            let s = rev_order@;
            let r = result@;
            assert forall|t1: int, t2: int|
                0 <= t1 < r.len() && 0 <= t2 < r.len() && t1 != t2 implies r[t1] != r[t2] by {
                assert(r[t1] == s[n - 1 - t1] && r[t2] == s[n - 1 - t2]);
            }
            assert forall|v: usize| (v as int) < n implies r.contains(v) by {
                assert(s.contains(v));
                let k = choose|k: int| 0 <= k < s.len() && s[k] == v;
                assert(r[n - 1 - k] == s[k]);
            }
        }
        result
    }
}

/// A directed, weighted connection to the vertex `to`.
#[derive(Copy, Clone, Debug, PartialEq, Eq, Structural)]
pub struct Edge {
    pub to: usize,
    pub cost: usize,
}

/// There is a walk of exactly `k` edges from `s` to `v` whose costs add up
/// to `d`.
pub open spec fn has_walk(g: Seq<Vec<Edge>>, s: int, v: int, d: int, k: nat) -> bool
    decreases k,
{
    if k == 0 {
        s == v && d == 0
    } else {
        exists|u: int, t: int|
            0 <= u < g.len() && 0 <= t < g[u]@.len() && (#[trigger] g[u]@[t]).to == v && has_walk(
                g,
                s,
                u,
                d - g[u]@[t].cost,
                (k - 1) as nat,
            )
    }
}

/// How a distance entry weighs in the termination measure: missing entries
/// weigh more than any real distance.
spec fn dist_weight(o: Option<usize>) -> nat {
    match o {
        None => usize::MAX as nat + 1,
        Some(d) => d as nat,
    }
}

/// The combined weight of all distance entries.
spec fn sum_dist(s: Seq<Option<usize>>) -> nat
    decreases s.len(),
{
    if s.len() == 0 {
        0
    } else {
        sum_dist(s.drop_last()) + dist_weight(s.last())
    }
}

/// Lowering one entry lowers the combined weight.
proof fn lemma_sum_dist_update(s: Seq<Option<usize>>, i: int, o: Option<usize>)
    requires
        0 <= i < s.len(),
        dist_weight(o) < dist_weight(s[i]),
    ensures
        sum_dist(s.update(i, o)) < sum_dist(s),
    decreases s.len(),
{
    let t = s.update(i, o);
    if i == s.len() - 1 {
        assert(t.drop_last() =~= s.drop_last());
    } else {
        assert(t.drop_last() =~= s.drop_last().update(i, o));
        assert(t.last() == s.last());
        lemma_sum_dist_update(s.drop_last(), i, o);
    }
}

/// How many vertices already have a reported distance.
spec fn count_some(s: Seq<Option<usize>>) -> nat
    decreases s.len(),
{
    if s.len() == 0 {
        0
    } else {
        count_some(s.drop_last()) + (if s.last() is Some {
            1nat
        } else {
            0nat
        })
    }
}

/// A run of missing entries reports nothing.
proof fn lemma_count_some_all_none(s: Seq<Option<usize>>)
    requires
        forall|k: int| 0 <= k < s.len() ==> (#[trigger] s[k]) is None,
    ensures
        count_some(s) == 0,
    decreases s.len(),
{
    if s.len() > 0 {
        lemma_count_some_all_none(s.drop_last());
    }
}

/// A reported entry makes the count positive.
proof fn lemma_count_some_pos(s: Seq<Option<usize>>, i: int)
    requires
        0 <= i < s.len(),
        s[i] is Some,
    ensures
        count_some(s) >= 1,
    decreases s.len(),
{
    if i < s.len() - 1 {
        lemma_count_some_pos(s.drop_last(), i);
    }
}

/// No more entries are reported than there are entries.
proof fn lemma_count_some_le_len(s: Seq<Option<usize>>)
    ensures
        count_some(s) <= s.len(),
    decreases s.len(),
{
    if s.len() > 0 {
        lemma_count_some_le_len(s.drop_last());
    }
}

/// Reporting a fresh entry raises the count by one; rewriting a reported
/// entry keeps it.
proof fn lemma_count_some_update(s: Seq<Option<usize>>, i: int, x: usize)
    requires
        0 <= i < s.len(),
    ensures
        s[i] is None ==> count_some(s.update(i, Some(x))) == count_some(s) + 1,
        s[i] is Some ==> count_some(s.update(i, Some(x))) == count_some(s),
    decreases s.len(),
{
    let t = s.update(i, Some(x));
    if i == s.len() - 1 {
        assert(t.drop_last() =~= s.drop_last());
    } else {
        assert(t.drop_last() =~= s.drop_last().update(i, Some(x)));
        assert(t.last() == s.last());
        lemma_count_some_update(s.drop_last(), i, x);
    }
}

/// Every edge out of `u` already leads to a reported vertex.
spec fn fully_relaxed(g: Seq<Vec<Edge>>, dists: Seq<Option<usize>>, u: int) -> bool {
    forall|t: int| 0 <= t < g[u]@.len() ==> dists[(#[trigger] g[u]@[t]).to as int] is Some
}

/// The queue still holds an entry for `u` carrying its current distance.
spec fn queued_current(q: Seq<(usize, usize)>, dists: Seq<Option<usize>>, u: int) -> bool {
    exists|e: int| 0 <= e < q.len() && (#[trigger] q[e]).1 == u && dists[u] == Some(q[e].0)
}

/// Once the start is reported and every reported vertex has all its edges
/// relaxed, every vertex a walk reaches is reported.
proof fn lemma_walk_reported(
    g: Seq<Vec<Edge>>,
    dists: Seq<Option<usize>>,
    s: int,
    v: int,
    d: int,
    k: nat,
)
    requires
        dists.len() == g.len(),
        forall|u: int, t: int|
            0 <= u < g.len() && 0 <= t < g[u]@.len() ==> (#[trigger] g[u]@[t]).to < g.len(),
        0 <= s < g.len(),
        dists[s] is Some,
        forall|u: int|
            0 <= u < g.len() && (#[trigger] dists[u]) is Some ==> fully_relaxed(g, dists, u),
        has_walk(g, s, v, d, k),
        0 <= v < g.len(),
    ensures
        dists[v] is Some,
    decreases k,
{
    if k > 0 && v != s {
        let (u, t) = choose|u: int, t: int|
            0 <= u < g.len() && 0 <= t < g[u]@.len() && (#[trigger] g[u]@[t]).to == v && has_walk(
                g,
                s,
                u,
                d - g[u]@[t].cost,
                (k - 1) as nat,
            );
        lemma_walk_reported(g, dists, s, u, d - g[u]@[t].cost, (k - 1) as nat);
        assert(fully_relaxed(g, dists, u));
        assert(dists[g[u]@[t].to as int] is Some);
    } else if k > 0 && v == s {
    }
}

/// The least cost of reaching each vertex from `s` over at most `max_v`
/// vertices: every reported distance is the cost of a real walk from `s`,
/// the start reports 0, and exactly the vertices some walk reaches are
/// reported.
pub fn dijkstra(s: usize, max_v: usize, edges_list: &[Vec<Edge>]) -> (r: Vec<Option<usize>>)
    requires
        s < max_v,
        edges_list@.len() == max_v,
        forall|u: int, t: int|
            0 <= u < max_v && 0 <= t < edges_list@[u]@.len() ==> (#[trigger] edges_list@[u]@[t]).to
                < max_v,
        forall|u: int, t: int|
            0 <= u < max_v && 0 <= t < edges_list@[u]@.len() ==> (#[trigger] edges_list@[u]@[t]).cost
                <= (usize::MAX - 1) as int / max_v as int,
    ensures
        r@.len() == max_v,
        r@[s as int] == Some(0usize),
        forall|v: int|
            0 <= v < max_v && (#[trigger] r@[v]) is Some ==> exists|k: nat|
                has_walk(edges_list@, s as int, v, r@[v]->0 as int, k),
        forall|v: int, d: int, k: nat|
            0 <= v < max_v && #[trigger] has_walk(edges_list@, s as int, v, d, k) ==> r@[v] is Some,
{
    let ghost g = edges_list@;
    let mut que: Vec<(usize, usize)> = Vec::new();
    let mut min_dists: Vec<Option<usize>> = Vec::new();
    let mut w: usize = 0;
    while w < max_v
        invariant
            min_dists@.len() == w <= max_v,
            forall|k: int| 0 <= k < w ==> (#[trigger] min_dists@[k]) is None,
        decreases max_v - w,
    {
        min_dists.push(None);
        w = w + 1;
    }
    let ghost wbound = (usize::MAX - 1) as int / max_v as int;
    let ghost dists0 = min_dists@;
    min_dists[s] = Some(0);
    que.push((0, s));
    proof {
        assert(has_walk(g, s as int, s as int, 0, 0));
        lemma_count_some_all_none(dists0);
        lemma_count_some_update(dists0, s as int, 0);
        assert(min_dists@ =~= dists0.update(s as int, Some(0usize)));
        assert(count_some(min_dists@) == 1);
        assert forall|z: int|
            0 <= z < max_v && (#[trigger] min_dists@[z]) is Some implies exists|k: nat|
            has_walk(g, s as int, z, min_dists@[z]->0 as int, k) by {
            assert(z == s);
            assert(min_dists@[z]->0 as int == 0);
        }
        assert(que@[0].1 == s && min_dists@[s as int] == Some(que@[0].0));
    }
    while que.len() > 0
        invariant
            min_dists@.len() == max_v,
            g == edges_list@,
            g.len() == max_v,
            s < max_v,
            forall|u: int, t: int|
                0 <= u < max_v && 0 <= t < g[u]@.len() ==> (#[trigger] g[u]@[t]).to < max_v,
            min_dists@[s as int] == Some(0usize),
            forall|e: int| 0 <= e < que@.len() ==> (#[trigger] que@[e]).1 < max_v,
            forall|e: int|
                0 <= e < que@.len() ==> (#[trigger] min_dists@[que@[e].1 as int]) is Some,
            forall|v: int|
                0 <= v < max_v && (#[trigger] min_dists@[v]) is Some ==> exists|k: nat|
                    has_walk(g, s as int, v, min_dists@[v]->0 as int, k),
            forall|e: int|
                0 <= e < que@.len() ==> min_dists@[(#[trigger] que@[e]).1 as int]->0 <= que@[e].0,
            forall|u: int|
                0 <= u < max_v && (#[trigger] min_dists@[u]) is Some ==> (queued_current(
                    que@,
                    min_dists@,
                    u,
                ) || fully_relaxed(g, min_dists@, u)),
            wbound == (usize::MAX - 1) as int / max_v as int,
            forall|u: int, t: int|
                0 <= u < max_v && 0 <= t < g[u]@.len() ==> (#[trigger] g[u]@[t]).cost <= wbound,
            forall|u: int|
                0 <= u < max_v && (#[trigger] min_dists@[u]) is Some ==> min_dists@[u]->0 <= (
                count_some(min_dists@) - 1) * wbound,
        decreases sum_dist(min_dists@), que@.len(),
    {
        let ghost sum0 = sum_dist(min_dists@);
        let mut best: usize = 0;
        let mut idx: usize = 1;
        while idx < que.len()
            invariant
                que@.len() > 0,
                best < que@.len(),
                idx <= que@.len(),
            decreases que@.len() - idx,
        {
            if que[idx].0 < que[best].0 {
                best = idx;
            }
            idx = idx + 1;
        }
        let ghost q0 = que@;
        let p = que.swap_remove(best);
        let v = p.1;
        proof {
            assert forall|e: int| 0 <= e < q0.len() && e != best implies exists|e2: int|
                0 <= e2 < que@.len() && que@[e2] == #[trigger] q0[e] by {
                if e < q0.len() - 1 {
                    assert(que@[e] == q0[e]);
                } else {
                    assert(best < q0.len() - 1);
                    assert(que@[best as int] == q0[e]);
                }
            }
            assert forall|e2: int| 0 <= e2 < que@.len() implies exists|e: int|
                0 <= e < q0.len() && q0[e] == #[trigger] que@[e2] by {
                if e2 == best {
                    assert(q0[q0.len() - 1] == que@[e2]);
                } else {
                    assert(q0[e2] == que@[e2]);
                }
            }
        }
        // Queued vertices always carry a distance, so the fallback is dead.
        let dist_v = match min_dists[v] {
            Some(d) => d,
            None => 0,
        };
        if dist_v >= p.0 {
            proof {
                assert forall|e2: int|
                    0 <= e2 < que@.len() implies min_dists@[(#[trigger] que@[e2]).1 as int]->0
                    <= que@[e2].0 by {
                    let e = choose|e: int| 0 <= e < q0.len() && q0[e] == que@[e2];
                    assert(min_dists@[q0[e].1 as int]->0 <= q0[e].0);
                }
                assert forall|u: int|
                    0 <= u < max_v && (#[trigger] min_dists@[u]) is Some && u != v implies (
                queued_current(que@, min_dists@, u) || fully_relaxed(g, min_dists@, u)) by {
                    if queued_current(q0, min_dists@, u) {
                        let e = choose|e: int|
                            0 <= e < q0.len() && (#[trigger] q0[e]).1 == u && min_dists@[u]
                                == Some(q0[e].0);
                        assert(e != best);
                        let e2 = choose|e2: int| 0 <= e2 < que@.len() && que@[e2] == q0[e];
                        assert(que@[e2].1 == u && min_dists@[u] == Some(que@[e2].0));
                    }
                }
            }
            let ghost base_len = que@.len();
            let mut j: usize = 0;
            while j < edges_list[v].len()
                invariant
                    min_dists@.len() == max_v,
                    g == edges_list@,
                    g.len() == max_v,
                    s < max_v,
                    v < max_v,
                    j <= g[v as int]@.len(),
                    forall|u: int, t: int|
                        0 <= u < max_v && 0 <= t < g[u]@.len() ==> (#[trigger] g[u]@[t]).to
                            < max_v,
                    min_dists@[s as int] == Some(0usize),
                    min_dists@[v as int] == Some(dist_v),
                    forall|e: int| 0 <= e < que@.len() ==> (#[trigger] que@[e]).1 < max_v,
                    forall|e: int|
                        0 <= e < que@.len() ==> (#[trigger] min_dists@[que@[e].1 as int]) is Some,
                    forall|z: int|
                        0 <= z < max_v && (#[trigger] min_dists@[z]) is Some ==> exists|k: nat|
                            has_walk(g, s as int, z, min_dists@[z]->0 as int, k),
                    forall|e: int|
                        0 <= e < que@.len() ==> min_dists@[(#[trigger] que@[e]).1 as int]->0
                            <= que@[e].0,
                    forall|u: int|
                        0 <= u < max_v && (#[trigger] min_dists@[u]) is Some && u != v ==> (
                        queued_current(que@, min_dists@, u) || fully_relaxed(g, min_dists@, u)),
                    forall|t: int|
                        0 <= t < j ==> min_dists@[(#[trigger] g[v as int]@[t]).to as int] is Some,
                    wbound == (usize::MAX - 1) as int / max_v as int,
                    forall|u: int, t: int|
                        0 <= u < max_v && 0 <= t < g[u]@.len() ==> (#[trigger] g[u]@[t]).cost
                            <= wbound,
                    forall|u: int|
                        0 <= u < max_v && (#[trigger] min_dists@[u]) is Some ==> min_dists@[u]->0
                            <= (count_some(min_dists@) - 1) * wbound,
                    (sum_dist(min_dists@) == sum0 && que@.len() == base_len) || (sum_dist(
                        min_dists@,
                    ) < sum0),
                decreases g[v as int]@.len() - j,
            {
                let e = edges_list[v][j];
                proof {
                    lemma_count_some_le_len(min_dists@);
                    lemma_count_some_pos(min_dists@, v as int);
                    vstd::arithmetic::div_mod::lemma_fundamental_div_mod(
                        (usize::MAX - 1) as int,
                        max_v as int,
                    );
                    assert(dist_v + e.cost <= usize::MAX - 1) by (nonlinear_arith)
                        requires
                            dist_v as int <= (count_some(min_dists@) - 1) * wbound,
                            e.cost <= wbound,
                            count_some(min_dists@) <= max_v,
                            wbound >= 0,
                            count_some(min_dists@) >= 1,
                            (usize::MAX - 1) as int == max_v as int * wbound + (usize::MAX
                                - 1) as int % max_v as int,
                            (usize::MAX - 1) as int % max_v as int >= 0,
                    ;
                }
                let candidate_dist = dist_v + e.cost;
                let current = match min_dists[e.to] {
                    Some(d) => d,
                    None => usize::MAX,
                };
                if candidate_dist < current {
                    let ghost pre = min_dists@;
                    let ghost que_mid = que@;
                    min_dists[e.to] = Some(candidate_dist);
                    que.push((candidate_dist, e.to));
                    proof {
                        assert(dist_weight(Some(candidate_dist)) < dist_weight(
                            pre[e.to as int],
                        ));
                        lemma_sum_dist_update(pre, e.to as int, Some(candidate_dist));
                        let k0 = choose|k: nat| has_walk(g, s as int, v as int, dist_v as int, k);
                        assert(g[v as int]@[j as int].to == e.to && has_walk(
                            g,
                            s as int,
                            v as int,
                            candidate_dist - g[v as int]@[j as int].cost,
                            k0,
                        ));
                        assert(has_walk(g, s as int, e.to as int, candidate_dist as int, k0 + 1));
                        assert forall|z: int|
                            0 <= z < max_v && (#[trigger] min_dists@[z]) is Some implies exists|
                            k: nat,
                        |
                            has_walk(g, s as int, z, min_dists@[z]->0 as int, k) by {
                            if z != e.to {
                                assert(pre[z] == min_dists@[z]);
                            }
                        }
                        lemma_count_some_update(pre, e.to as int, candidate_dist);
                        assert(min_dists@ =~= pre.update(e.to as int, Some(candidate_dist)));
                        assert forall|u: int|
                            0 <= u < max_v && (#[trigger] min_dists@[u]) is Some
                            implies min_dists@[u]->0 <= (count_some(min_dists@) - 1)
                            * wbound by {
                            let k_pre = count_some(pre) as int;
                            let k_new = count_some(min_dists@) as int;
                            if u == e.to as int {
                                if pre[u] is Some {
                                    assert(candidate_dist < pre[u]->0);
                                    assert(pre[u]->0 <= (k_pre - 1) * wbound);
                                    assert(k_new == k_pre);
                                } else {
                                    assert(k_new == k_pre + 1);
                                    assert(candidate_dist as int <= k_pre * wbound)
                                        by (nonlinear_arith)
                                        requires
                                            candidate_dist as int == dist_v + e.cost,
                                            dist_v as int <= (k_pre - 1) * wbound,
                                            e.cost <= wbound,
                                    ;
                                }
                            } else {
                                assert(min_dists@[u] == pre[u]);
                                assert(pre[u]->0 <= (k_pre - 1) * wbound);
                                assert((k_pre - 1) * wbound <= (k_new - 1) * wbound)
                                    by (nonlinear_arith)
                                    requires
                                        k_pre <= k_new,
                                        wbound >= 0,
                                ;
                            }
                        }
                        assert(que@[que@.len() - 1].1 == e.to && min_dists@[e.to as int] == Some(
                            candidate_dist,
                        ));
                        assert forall|u: int|
                            0 <= u < max_v && (#[trigger] min_dists@[u]) is Some && u != v
                            implies (queued_current(que@, min_dists@, u) || fully_relaxed(
                            g,
                            min_dists@,
                            u,
                        )) by {
                            if u == e.to {
                                assert(queued_current(que@, min_dists@, u));
                            } else if min_dists@[u] == pre[u] {
                                if queued_current(que_mid, pre, u) {
                                    let w2 = choose|w2: int|
                                        0 <= w2 < que_mid.len() && (#[trigger] que_mid[w2]).1 == u
                                            && pre[u] == Some(que_mid[w2].0);
                                    assert(que@[w2].1 == u && min_dists@[u] == Some(que@[w2].0));
                                }
                            }
                        }
                    }
                }
                j = j + 1;
            }
            proof {
                assert(fully_relaxed(g, min_dists@, v as int));
                assert forall|u: int|
                    0 <= u < max_v && (#[trigger] min_dists@[u]) is Some implies (queued_current(
                    que@,
                    min_dists@,
                    u,
                ) || fully_relaxed(g, min_dists@, u)) by {
                }
            }
        }
    }
    proof {
        assert forall|u: int|
            0 <= u < max_v && (#[trigger] min_dists@[u]) is Some implies fully_relaxed(
            g,
            min_dists@,
            u,
        ) by {
            if queued_current(que@, min_dists@, u) {
                let e = choose|e: int|
                    0 <= e < que@.len() && (#[trigger] que@[e]).1 == u && min_dists@[u] == Some(
                        que@[e].0,
                    );
            }
        }
        assert forall|v2: int, d: int, k: nat|
            0 <= v2 < max_v && #[trigger] has_walk(g, s as int, v2, d, k) implies min_dists@[v2]
            is Some by {
            lemma_walk_reported(g, min_dists@, s as int, v2, d, k);
        }
    }
    min_dists
}

/// How many times `v` occurs in `s`.
pub open spec fn count_in(s: Seq<usize>, v: usize) -> nat
    decreases s.len(),
{
    if s.len() == 0 {
        0
    } else {
        count_in(s.drop_last(), v) + (if s.last() == v {
            1nat
        } else {
            0nat
        })
    }
}

/// Appending an item raises exactly that item's count by one.
pub proof fn lemma_count_in_push(s: Seq<usize>, x: usize, v: usize)
    ensures
        count_in(s.push(x), v) == count_in(s, v) + (if x == v {
            1nat
        } else {
            0nat
        }),
{
    assert(s.push(x).drop_last() =~= s);
}

/// Extending a prefix by one item extends its counts by that item.
pub proof fn lemma_count_in_prefix(s: Seq<usize>, j: int, v: usize)
    requires
        0 <= j < s.len(),
    ensures
        count_in(s.subrange(0, j + 1), v) == count_in(s.subrange(0, j), v) + (if s[j] == v {
            1nat
        } else {
            0nat
        }),
{
    assert(s.subrange(0, j + 1).drop_last() =~= s.subrange(0, j));
}

/// The targets of the 1-based tuples whose source is `u + 1`, each lowered to
/// a 0-based vertex number, in the order the tuples give them.
/// A value occurs in a sequence exactly when its count there is positive.
pub proof fn lemma_count_in_positive(s: Seq<usize>, v: usize)
    ensures
        count_in(s, v) > 0 <==> s.contains(v),
    decreases s.len(),
{
    if s.len() > 0 {
        lemma_count_in_positive(s.drop_last(), v);
        if s.contains(v) && s.last() != v {
            let t = choose|t: int| 0 <= t < s.len() && s[t] == v;
            assert(s.drop_last()[t] == v);
        }
        if s.drop_last().contains(v) {
            let t = choose|t: int| 0 <= t < s.len() - 1 && s.drop_last()[t] == v;
            assert(s[t] == v);
        }
    }
}

/// A count never exceeds the length.
pub proof fn lemma_count_in_le_len(s: Seq<usize>, v: usize)
    ensures
        count_in(s, v) <= s.len(),
    decreases s.len(),
{
    if s.len() > 0 {
        lemma_count_in_le_len(s.drop_last(), v);
    }
}

/// One update changes only the counts of the old and the new value there.
pub proof fn lemma_count_in_update(s: Seq<usize>, i: int, x: usize, v: usize)
    requires
        0 <= i < s.len(),
    ensures
        count_in(s.update(i, x), v) == count_in(s, v) + (if x == v {
            1nat
        } else {
            0nat
        }) - (if s[i] == v {
            1nat
        } else {
            0nat
        }),
    decreases s.len(),
{
    let t = s.update(i, x);
    if i == s.len() - 1 {
        assert(t.drop_last() =~= s.drop_last());
    } else {
        assert(t.drop_last() =~= s.drop_last().update(i, x));
        assert(t.last() == s.last());
        lemma_count_in_update(s.drop_last(), i, x, v);
    }
}

pub open spec fn bucket_of_tuples(tuples: Seq<(usize, usize)>, u: usize) -> Seq<usize>
    decreases tuples.len(),
{
    if tuples.len() == 0 {
        Seq::empty()
    } else {
        bucket_of_tuples(tuples.drop_last(), u) + (if tuples.last().0 == u + 1 {
            seq![(tuples.last().1 - 1) as usize]
        } else {
            Seq::empty()
        })
    }
}

pub trait AdjacencyList where Self: Sized {
    /// Everything `rev_edge_direction` promises of its result.
    spec fn rev_edge_direction_post(&self, r: Self) -> bool;

    /// Whether `from_atcoder_tuples` may be called.
    spec fn from_atcoder_tuples_req(n: usize, tuples: &[(usize, usize)]) -> bool;

    /// Everything `from_atcoder_tuples` promises of its result.
    spec fn from_atcoder_tuples_post(n: usize, tuples: &[(usize, usize)], r: Self) -> bool;

    /// Whether the receiver is a graph `strongly_connected_component` takes.
    spec fn scc_req(&self) -> bool;

    /// Everything `strongly_connected_component` promises of its result.
    spec fn scc_post(&self, r: Vec<usize>) -> bool;

    /// Reverse the direction of all edges
    fn rev_edge_direction(&self) -> (r: Self)
        requires
            self.scc_req(),
        ensures
            self.rev_edge_direction_post(r),
    ;

    /// Builds the adjacency list of `n` vertices from 1-based edge tuples.
    fn from_atcoder_tuples(n: usize, tuples: &[(usize, usize)]) -> (r: Self)
        requires
            Self::from_atcoder_tuples_req(n, tuples),
        ensures
            Self::from_atcoder_tuples_post(n, tuples, r),
    ;

    /// Labels each vertex with the number of its strongly connected
    /// component, in reverse topological order of the components.
    fn strongly_connected_component(&self) -> (r: Vec<usize>)
        requires
            self.scc_req(),
        ensures
            self.scc_post(r),
    ;
}

/// Some vertex already marked seen carries the label `id`.
spec fn label_used(order: Seq<usize>, seen: Seq<bool>, id: int) -> bool {
    exists|v: int| 0 <= v < order.len() && seen[v] && #[trigger] order[v] == id
}

/// Depth-first search over the reversed graph: labels every vertex reachable
/// from `start` through unlabelled vertices with the component number
/// `scc_id`, marking it seen.
#[verifier::loop_isolation(false)]
fn scc_mark_dfs(
    graph: &Vec<Vec<usize>>,
    seen: &mut Vec<bool>,
    order: &mut Vec<usize>,
    start: usize,
    scc_id: usize,
)
    requires
        valid_graph(graph@),
        old(seen)@.len() == graph@.len(),
        old(order)@.len() == graph@.len(),
        start < graph@.len(),
        !old(seen)@[start as int],
    ensures
        final(seen)@.len() == graph@.len(),
        final(order)@.len() == graph@.len(),
        forall|k: int| 0 <= k < graph@.len() ==> (old(seen)@[k] ==> #[trigger] final(seen)@[k]),
        final(seen)@[start as int],
        forall|k: int|
            0 <= k < graph@.len() ==> #[trigger] final(order)@[k] == (if final(seen)@[k] && !old(
                seen,
            )@[k] {
                scc_id
            } else {
                old(order)@[k]
            }),
    decreases count_false(old(seen)@),
{
    let ghost seen0 = old(seen)@;
    let ghost order0 = old(order)@;
    seen[start] = true;
    order[start] = scc_id;
    let ghost seen1 = seen@;
    proof {
        lemma_count_false_update(seen0, start as int);
    }
    let mut j: usize = 0;
    while j < graph[start].len()
        invariant
            j <= graph@[start as int]@.len(),
            seen@.len() == graph@.len(),
            order@.len() == graph@.len(),
            seen@[start as int],
            forall|k: int| 0 <= k < graph@.len() ==> (seen1[k] ==> #[trigger] seen@[k]),
            forall|k: int|
                0 <= k < graph@.len() ==> #[trigger] order@[k] == (if seen@[k] && !seen0[k] {
                    scc_id
                } else {
                    order0[k]
                }),
        decreases graph@[start as int]@.len() - j,
    {
        let to = graph[start][j];
        if !seen[to] {
            proof {
                lemma_count_false_mono(seen1, seen@);
            }
            scc_mark_dfs(graph, seen, order, to, scc_id);
        }
        j = j + 1;
    }
}

impl AdjacencyList for Vec<Vec<usize>> {
    /// The reversal keeps every edge, with its direction flipped: vertex `u`
    /// occurs in the new bucket of `v` as often as `v` occurs in the old
    /// bucket of `u`.  Each new bucket lists its sources in non-decreasing
    /// order.
    open spec fn rev_edge_direction_post(&self, r: Self) -> bool {
        &&& r@.len() == self@.len()
        &&& valid_graph(r@)
        &&& forall|u: int, v: int|
            0 <= u < self@.len() && 0 <= v < self@.len() ==> #[trigger] count_in(
                r@[v]@,
                u as usize,
            ) == count_in(self@[u]@, v as usize)
        &&& forall|v: int, t1: int, t2: int|
            0 <= v < r@.len() && 0 <= t1 < t2 < r@[v]@.len() ==> #[trigger] r@[v]@[t1]
                <= #[trigger] r@[v]@[t2]
    }

    open spec fn from_atcoder_tuples_req(n: usize, tuples: &[(usize, usize)]) -> bool {
        forall|t: int|
            0 <= t < tuples@.len() ==> 1 <= (#[trigger] tuples@[t]).0 <= n && 1 <= tuples@[t].1
    }

    /// Bucket `u` of the result holds, in order, the 0-based targets of the
    /// tuples whose 1-based source is `u + 1`.
    open spec fn from_atcoder_tuples_post(n: usize, tuples: &[(usize, usize)], r: Self) -> bool {
        &&& r@.len() == n
        &&& forall|u: int| 0 <= u < n ==> #[trigger] r@[u]@ == bucket_of_tuples(tuples@, u as usize)
    }

    open spec fn scc_req(&self) -> bool {
        valid_graph(self@)
    }

    /// One label per vertex, each below the vertex count; the labels in use
    /// count up from 0 without gaps.
    open spec fn scc_post(&self, r: Vec<usize>) -> bool {
        &&& r@.len() == self@.len()
        &&& forall|k: int| 0 <= k < r@.len() ==> #[trigger] r@[k] < self@.len()
        &&& forall|l: usize| #[trigger] r@.contains(l) && l > 0 ==> r@.contains((l - 1) as usize)
    }

    fn rev_edge_direction(&self) -> (r: Self) {
        let n = self.len();
        let mut reversed: Vec<Vec<usize>> = Vec::new();
        let mut v: usize = 0;
        while v < n
            invariant
                n == self@.len(),
                valid_graph(self@),
                reversed@.len() == v <= n,
                forall|w: int, u: int|
                    0 <= w < v && 0 <= u < n ==> #[trigger] count_in(reversed@[w]@, u as usize)
                        == count_in(self@[u]@, w as usize),
                forall|w: int, t: int|
                    0 <= w < v && 0 <= t < reversed@[w]@.len() ==> #[trigger] reversed@[w]@[t] < n,
                forall|w: int, t1: int, t2: int|
                    0 <= w < v && 0 <= t1 < t2 < reversed@[w]@.len() ==> #[trigger] reversed@[w]@[t1]
                        <= #[trigger] reversed@[w]@[t2],
            decreases n - v,
        {
            let mut row: Vec<usize> = Vec::new();
            let mut u: usize = 0;
            while u < n
                invariant
                    n == self@.len(),
                    valid_graph(self@),
                    u <= n,
                    v < n,
                    forall|x: int|
                        0 <= x < u ==> #[trigger] count_in(row@, x as usize) == count_in(
                            self@[x]@,
                            v,
                        ),
                    forall|x: int| u <= x < n ==> #[trigger] count_in(row@, x as usize) == 0,
                    forall|t: int| 0 <= t < row@.len() ==> #[trigger] row@[t] < u,
                    forall|t1: int, t2: int|
                        0 <= t1 < t2 < row@.len() ==> #[trigger] row@[t1] <= #[trigger] row@[t2],
                decreases n - u,
            {
                proof {
                    assert(count_in(row@, (u as int) as usize) == 0);
                    assert(self@[u as int]@.subrange(0, 0) =~= Seq::<usize>::empty());
                }
                let mut j: usize = 0;
                while j < self[u].len()
                    invariant
                        n == self@.len(),
                        valid_graph(self@),
                        u < n,
                        v < n,
                        j <= self@[u as int]@.len(),
                        count_in(row@, u) == count_in(self@[u as int]@.subrange(0, j as int), v),
                        forall|x: int|
                            0 <= x < u ==> #[trigger] count_in(row@, x as usize) == count_in(
                                self@[x]@,
                                v,
                            ),
                        forall|x: int| u < x < n ==> #[trigger] count_in(row@, x as usize) == 0,
                        forall|t: int| 0 <= t < row@.len() ==> #[trigger] row@[t] <= u,
                        forall|t1: int, t2: int|
                            0 <= t1 < t2 < row@.len() ==> #[trigger] row@[t1] <= #[trigger] row@[t2],
                    decreases self@[u as int]@.len() - j,
                {
                    proof {
                        lemma_count_in_prefix(self@[u as int]@, j as int, v);
                    }
                    if self[u][j] == v {
                        let ghost pre = row@;
                        row.push(u);
                        proof {
                            assert forall|x: usize| true implies count_in(row@, x) == count_in(
                                pre,
                                x,
                            ) + (if x == u {
                                1nat
                            } else {
                                0nat
                            }) by {
                                lemma_count_in_push(pre, u, x);
                            }
                        }
                    }
                    j = j + 1;
                }
                proof {
                    assert(self@[u as int]@.subrange(0, self@[u as int]@.len() as int) =~= self@[
                    u as int]@);
                }
                u = u + 1;
            }
            reversed.push(row);
            v = v + 1;
        }
        reversed
    }

    fn from_atcoder_tuples(n: usize, tuples: &[(usize, usize)]) -> (r: Self) {
        let mut acc: Vec<Vec<usize>> = Vec::new();
        let mut u: usize = 0;
        let len = tuples.len();
        while u < n
            invariant
                acc@.len() == u <= n,
                len == tuples@.len(),
                forall|t: int|
                    0 <= t < tuples@.len() ==> 1 <= (#[trigger] tuples@[t]).0 && 1 <= tuples@[t].1,
                forall|w: int|
                    0 <= w < u ==> #[trigger] acc@[w]@ == bucket_of_tuples(tuples@, w as usize),
            decreases n - u,
        {
            let mut row: Vec<usize> = Vec::new();
            let mut t: usize = 0;
            while t < len
                invariant
                    t <= len,
                    u < n,
                    len == tuples@.len(),
                    forall|k: int|
                        0 <= k < tuples@.len() ==> 1 <= (#[trigger] tuples@[k]).0 && 1
                            <= tuples@[k].1,
                    row@ == bucket_of_tuples(tuples@.subrange(0, t as int), u),
                decreases len - t,
            {
                let ghost prefix = tuples@.subrange(0, t as int);
                proof {
                    assert(tuples@.subrange(0, t as int + 1).drop_last() =~= prefix);
                }
                let pair = tuples[t];
                if pair.0 == u + 1 {
                    row.push(pair.1 - 1);
                    proof {
                        assert(row@ =~= bucket_of_tuples(tuples@.subrange(0, t as int + 1), u));
                    }
                } else {
                    proof {
                        assert(row@ =~= bucket_of_tuples(tuples@.subrange(0, t as int + 1), u));
                    }
                }
                t = t + 1;
            }
            proof {
                assert(tuples@.subrange(0, tuples@.len() as int) =~= tuples@);
            }
            acc.push(row);
            u = u + 1;
        }
        acc
    }

    fn strongly_connected_component(&self) -> (r: Vec<usize>) {
        let n = self.len();
        let topological_order = self.topological_sort();
        let reversed = self.rev_edge_direction();
        let mut order: Vec<usize> = Vec::new();
        let mut seen: Vec<bool> = Vec::new();
        let mut k: usize = 0;
        while k < n
            invariant
                order@.len() == k <= n,
                seen@.len() == k,
                forall|t: int| 0 <= t < k ==> !(#[trigger] seen@[t]),
                forall|t: int| 0 <= t < k ==> #[trigger] order@[t] == 0,
            decreases n - k,
        {
            order.push(0);
            seen.push(false);
            k = k + 1;
        }
        let mut scc_id: usize = 0;
        let mut t: usize = 0;
        while t < n
            invariant
                n == self@.len(),
                topological_order@.len() == n,
                reversed@.len() == n,
                valid_graph(reversed@),
                forall|k: int| 0 <= k < n ==> #[trigger] topological_order@[k] < n,
                forall|v: usize| (v as int) < n ==> topological_order@.contains(v),
                order@.len() == n,
                seen@.len() == n,
                t <= n,
                scc_id <= t,
                forall|k: int| 0 <= k < n ==> (n > 0 ==> #[trigger] order@[k] < n),
                forall|k: int| 0 <= k < t ==> seen@[#[trigger] topological_order@[k] as int],
                forall|k: int| 0 <= k < n && seen@[k] ==> #[trigger] order@[k] < scc_id,
                forall|id: int| 0 <= id < scc_id ==> #[trigger] label_used(order@, seen@, id),
            decreases n - t,
        {
            let start_id = topological_order[t];
            if !seen[start_id] {
                let ghost seen_pre = seen@;
                let ghost order_pre = order@;
                scc_mark_dfs(&reversed, &mut seen, &mut order, start_id, scc_id);
                proof {
                    assert forall|id: int|
                        0 <= id < scc_id + 1 implies #[trigger] label_used(order@, seen@, id) by {
                        if id < scc_id {
                            assert(label_used(order_pre, seen_pre, id));
                            let v = choose|v: int|
                                0 <= v < order_pre.len() && seen_pre[v] && #[trigger] order_pre[v]
                                    == id;
                            assert(seen@[v] && order@[v] == id);
                        } else {
                            assert(seen@[start_id as int] && order@[start_id as int] == scc_id);
                        }
                    }
                }
                scc_id = scc_id + 1;
            }
            t = t + 1;
        }
        proof {
            assert forall|v: int| 0 <= v < n implies #[trigger] seen@[v] by {
                assert(topological_order@.contains(v as usize));
                let k = choose|k: int|
                    0 <= k < topological_order@.len() && topological_order@[k] == v as usize;
                assert(seen@[topological_order@[k] as int]);
            }
            assert forall|l: usize| #[trigger] order@.contains(l) && l > 0 implies order@.contains(
                (l - 1) as usize,
            ) by {
                let k = choose|k: int| 0 <= k < order@.len() && order@[k] == l;
                assert(seen@[k]);
                assert(l < scc_id);
                assert(label_used(order@, seen@, l - 1));
                let v = choose|v: int|
                    0 <= v < order@.len() && seen@[v] && #[trigger] order@[v] == l - 1;
                assert(order@[v] == (l - 1) as usize);
            }
        }
        order
    }
}

/// Vertex `v` can be reached from vertex 0 in at most `k` edge steps.
pub open spec fn reaches(g: Seq<Vec<usize>>, v: int, k: nat) -> bool
    decreases k,
{
    if k == 0 {
        v == 0
    } else {
        v == 0 || exists|u: int, t: int|
            0 <= u < g.len() && 0 <= t < g[u]@.len() && (#[trigger] g[u]@[t]) == v && reaches(
                g,
                u,
                (k - 1) as nat,
            )
    }
}

/// How many vertices have no colour yet.
spec fn count_none(s: Seq<Option<bool>>) -> nat
    decreases s.len(),
{
    if s.len() == 0 {
        0
    } else {
        count_none(s.drop_last()) + (if s.last() is None {
            1nat
        } else {
            0nat
        })
    }
}

/// Colouring one uncoloured vertex lowers the count of uncoloured ones.
proof fn lemma_count_none_update(s: Seq<Option<bool>>, i: int, c: bool)
    requires
        0 <= i < s.len(),
        s[i] is None,
    ensures
        count_none(s.update(i, Some(c))) + 1 == count_none(s),
    decreases s.len(),
{
    let t = s.update(i, Some(c));
    if i == s.len() - 1 {
        assert(t.drop_last() =~= s.drop_last());
    } else {
        assert(t.drop_last() =~= s.drop_last().update(i, Some(c)));
        assert(t.last() == s.last());
        lemma_count_none_update(s.drop_last(), i, c);
    }
}

/// Some entry of the work stack names vertex `v`.
spec fn stack_has(st: Seq<(usize, bool)>, v: int) -> bool {
    exists|e: int| 0 <= e < st.len() && (#[trigger] st[e]).0 == v
}

/// A vertex reachable from 0 is coloured whenever vertex 0 is coloured, no
/// vertex waits on the stack, and the coloured set is closed under edges.
proof fn lemma_reaches_colored(g: Seq<Vec<usize>>, current: Seq<Option<bool>>, v: int, k: nat)
    requires
        valid_graph(g),
        current.len() == g.len(),
        g.len() > 0,
        reaches(g, v, k),
        0 <= v < g.len(),
        current[0] is Some,
        forall|u: int, t: int|
            0 <= u < g.len() && 0 <= t < g[u]@.len() && current[u] is Some ==> current[(
            #[trigger] g[u]@[t]) as int] is Some,
    ensures
        current[v] is Some,
    decreases k,
{
    if v != 0 && k > 0 {
        let (u, t) = choose|u: int, t: int|
            0 <= u < g.len() && 0 <= t < g[u]@.len() && (#[trigger] g[u]@[t]) == v && reaches(
                g,
                u,
                (k - 1) as nat,
            );
        lemma_reaches_colored(g, current, u, (k - 1) as nat);
    }
}

pub trait BipartiteGraph {
    /// Whether the receiver is a graph `bi_partition` takes: well formed,
    /// and with every vertex reachable from vertex 0.
    spec fn bi_partition_req(&self) -> bool;

    /// Everything `bi_partition` promises of its result.
    spec fn bi_partition_post(&self, r: (Vec<usize>, Vec<usize>)) -> bool;

    /// Partition bipartite graph into two vertex ids.
    fn bi_partition(&self) -> (r: (Vec<usize>, Vec<usize>))
        requires
            self.bi_partition_req(),
        ensures
            self.bi_partition_post(r),
    ;
}

impl BipartiteGraph for Vec<Vec<usize>> {
    open spec fn bi_partition_req(&self) -> bool {
        &&& valid_graph(self@)
        &&& self@.len() > 0
        &&& forall|v: int| 0 <= v < self@.len() ==> reaches(self@, v, self@.len() as nat)
    }

    /// The two lists split the vertex numbers: each is strictly increasing,
    /// they share nothing, together they hold every vertex, and vertex 0
    /// leads the first list.
    open spec fn bi_partition_post(&self, r: (Vec<usize>, Vec<usize>)) -> bool {
        &&& forall|a: int, b: int| 0 <= a < b < r.0@.len() ==> r.0@[a] < r.0@[b]
        &&& forall|a: int, b: int| 0 <= a < b < r.1@.len() ==> r.1@[a] < r.1@[b]
        &&& forall|t: int| 0 <= t < r.0@.len() ==> #[trigger] r.0@[t] < self@.len()
        &&& forall|t: int| 0 <= t < r.1@.len() ==> #[trigger] r.1@[t] < self@.len()
        &&& forall|v: usize|
            (v as int) < self@.len() ==> (r.0@.contains(v) || r.1@.contains(v))
        &&& forall|v: usize| !(r.0@.contains(v) && r.1@.contains(v))
        &&& r.0@.len() > 0 && r.0@[0] == 0
    }

    #[verifier::rlimit(50)]
    fn bi_partition(&self) -> (r: (Vec<usize>, Vec<usize>)) {
        let ghost g = self@;
        let n = self.len();
        let mut current: Vec<Option<bool>> = Vec::new();
        let mut k: usize = 0;
        while k < n
            invariant
                current@.len() == k <= n,
                forall|t: int| 0 <= t < k ==> (#[trigger] current@[t]) is None,
            decreases n - k,
        {
            current.push(None);
            k = k + 1;
        }
        let mut stack: Vec<(usize, bool)> = Vec::new();
        current[0] = Some(true);
        let mut t0: usize = 0;
        while t0 < self[0].len()
            invariant
                g == self@,
                valid_graph(g),
                n == g.len(),
                0 < n,
                current@.len() == n,
                current@[0] == Some(true),
                t0 <= g[0]@.len(),
                forall|v: int| 0 < v < n ==> (#[trigger] current@[v]) is None,
                forall|e: int| 0 <= e < stack@.len() ==> (#[trigger] stack@[e]).0 < n,
                forall|t: int|
                    0 <= t < t0 ==> current@[(#[trigger] g[0]@[t]) as int] is Some || stack_has(
                        stack@,
                        g[0]@[t] as int,
                    ),
            decreases g[0]@.len() - t0,
        {
            let w = self[0][t0];
            let ghost st_pre = stack@;
            stack.push((w, false));
            proof {
                assert(stack@[st_pre.len() as int].0 == w);
                assert forall|t: int|
                    0 <= t < t0 + 1 implies current@[(#[trigger] g[0]@[t]) as int] is Some
                    || stack_has(stack@, g[0]@[t] as int) by {
                    if t < t0 && stack_has(st_pre, g[0]@[t] as int) {
                        let e = choose|e: int|
                            0 <= e < st_pre.len() && (#[trigger] st_pre[e]).0 == g[0]@[t];
                        assert(stack@[e].0 == g[0]@[t]);
                    }
                }
            }
            t0 = t0 + 1;
        }
        while stack.len() > 0
            invariant
                g == self@,
                valid_graph(g),
                n == g.len(),
                0 < n,
                current@.len() == n,
                current@[0] == Some(true),
                forall|e: int| 0 <= e < stack@.len() ==> (#[trigger] stack@[e]).0 < n,
                forall|u: int, t: int|
                    0 <= u < n && 0 <= t < g[u]@.len() && current@[u] is Some ==> current@[(
                    #[trigger] g[u]@[t]) as int] is Some || stack_has(stack@, g[u]@[t] as int),
            decreases count_none(current@), stack@.len(),
        {
            let ghost st_pre = stack@;
            let top = stack.pop().unwrap();
            let vertex_id = top.0;
            let bi = top.1;
            proof {
                assert forall|u: int, t: int|
                    0 <= u < n && 0 <= t < g[u]@.len() && current@[u] is Some && g[u]@[t]
                        != vertex_id implies current@[(#[trigger] g[u]@[t]) as int] is Some
                    || stack_has(stack@, g[u]@[t] as int) by {
                    if !(current@[g[u]@[t] as int] is Some) {
                        let e = choose|e: int|
                            0 <= e < st_pre.len() && (#[trigger] st_pre[e]).0 == g[u]@[t];
                        assert(e < st_pre.len() - 1);
                        assert(stack@[e].0 == g[u]@[t]);
                    }
                }
            }
            if current[vertex_id].is_none() {
                let ghost cur_pre = current@;
                current[vertex_id] = Some(bi);
                proof {
                    lemma_count_none_update(cur_pre, vertex_id as int, bi);
                }
                let mut j: usize = 0;
                while j < self[vertex_id].len()
                    invariant
                        g == self@,
                        valid_graph(g),
                        n == g.len(),
                        0 < n,
                        vertex_id < n,
                        current@.len() == n,
                        current@[0] == Some(true),
                        current@[vertex_id as int] == Some(bi),
                        count_none(current@) + 1 == count_none(cur_pre),
                        j <= g[vertex_id as int]@.len(),
                        forall|e: int| 0 <= e < stack@.len() ==> (#[trigger] stack@[e]).0 < n,
                        forall|u: int, t: int|
                            0 <= u < n && 0 <= t < g[u]@.len() && current@[u] is Some && !(u
                                == vertex_id as int && t >= j) ==> current@[(
                            #[trigger] g[u]@[t]) as int] is Some || stack_has(
                                stack@,
                                g[u]@[t] as int,
                            ),
                    decreases g[vertex_id as int]@.len() - j,
                {
                    let w = self[vertex_id][j];
                    if current[w].is_none() {
                        let ghost st_mid = stack@;
                        stack.push((w, !bi));
                        proof {
                            assert(stack@[st_mid.len() as int].0 == w);
                            assert forall|u: int, t: int|
                                0 <= u < n && 0 <= t < g[u]@.len() && current@[u] is Some && !(u
                                    == vertex_id as int && t >= j + 1) implies current@[(
                            #[trigger] g[u]@[t]) as int] is Some || stack_has(
                                stack@,
                                g[u]@[t] as int,
                            ) by {
                                if !(current@[g[u]@[t] as int] is Some) && !(u == vertex_id as int
                                    && t == j) {
                                    let e = choose|e: int|
                                        0 <= e < st_mid.len() && (#[trigger] st_mid[e]).0 == g[u]@[t];
                                    assert(stack@[e].0 == g[u]@[t]);
                                }
                            }
                        }
                    }
                    j = j + 1;
                }
            }
        }
        proof {
            assert forall|v: int| 0 <= v < n implies (#[trigger] current@[v]) is Some by {
                lemma_reaches_colored(g, current@, v, n as nat);
            }
        }
        let mut x: Vec<usize> = Vec::new();
        let mut y: Vec<usize> = Vec::new();
        let mut ind: usize = 0;
        while ind < n
            invariant
                current@.len() == n,
                ind <= n,
                forall|v: int| 0 <= v < n ==> (#[trigger] current@[v]) is Some,
                current@[0] == Some(true),
                forall|a: int, b: int| 0 <= a < b < x@.len() ==> x@[a] < x@[b],
                forall|a: int, b: int| 0 <= a < b < y@.len() ==> y@[a] < y@[b],
                forall|t: int| 0 <= t < x@.len() ==> #[trigger] x@[t] < ind,
                forall|t: int| 0 <= t < y@.len() ==> #[trigger] y@[t] < ind,
                forall|v: usize|
                    (v as int) < ind ==> (x@.contains(v) <==> current@[v as int] == Some(true)),
                forall|v: usize|
                    (v as int) < ind ==> (y@.contains(v) <==> current@[v as int] == Some(false)),
                ind > 0 ==> x@.len() > 0 && x@[0] == 0,
            decreases n - ind,
        {
            let ghost x_pre = x@;
            let ghost y_pre = y@;
            let colored = current[ind].unwrap();
            if colored {
                x.push(ind);
            } else {
                y.push(ind);
            }
            proof {
                assert forall|v: usize|
                    (v as int) < ind + 1 implies (x@.contains(v) <==> current@[v as int] == Some(
                    true,
                )) && (y@.contains(v) <==> current@[v as int] == Some(false)) by {
                    lemma_push_contains(x_pre, ind, v);
                    lemma_push_contains(y_pre, ind, v);
                    if (v as int) < ind {
                        assert(x_pre.contains(v) <==> current@[v as int] == Some(true));
                        assert(y_pre.contains(v) <==> current@[v as int] == Some(false));
                    }
                }
            }
            ind = ind + 1;
        }
        proof {
            assert forall|v: usize| (v as int) < n implies (x@.contains(v) <==> !y@.contains(
                v,
            )) by {
                assert(x@.contains(v) <==> current@[v as int] == Some(true));
                assert(y@.contains(v) <==> current@[v as int] == Some(false));
                assert(current@[v as int] is Some);
                if current@[v as int]->0 {
                    assert(current@[v as int] == Some(true));
                } else {
                    assert(current@[v as int] == Some(false));
                }
            }
            assert(x@.len() > 0 && x@[0] == 0);
        }
        (x, y)
    }
}

} // verus!
