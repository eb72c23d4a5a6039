use vstd::prelude::*;

verus! {

/// The representative that the parent chain of `s` leads to from `i`: parents
/// always carry a smaller number, so the chain must end.
spec fn root_in(s: Seq<usize>, i: int) -> int
    decreases i,
{
    if 0 <= i < s.len() && s[i] < i {
        root_in(s, s[i] as int)
    } else {
        i
    }
}

/// In a well-formed forest the representative is a root within bounds.
proof fn lemma_root_in_bounds(s: Seq<usize>, i: int)
    requires
        forall|k: int| 0 <= k < s.len() ==> #[trigger] s[k] <= k,
        0 <= i < s.len(),
    ensures
        0 <= root_in(s, i) <= i,
        s[root_in(s, i)] == root_in(s, i),
    decreases i,
{
    if s[i] < i {
        lemma_root_in_bounds(s, s[i] as int);
    }
}

/// Pointing a node straight at its representative changes no representative.
proof fn lemma_root_in_compress(s: Seq<usize>, p: int, i: int)
    requires
        forall|k: int| 0 <= k < s.len() ==> #[trigger] s[k] <= k,
        0 <= p < s.len(),
        0 <= i < s.len(),
    ensures
        root_in(s.update(p, root_in(s, p) as usize), i) == root_in(s, i),
    decreases i,
{
    lemma_root_in_bounds(s, p);
    let r = root_in(s, p);
    let t = s.update(p, r as usize);
    if i == p {
        if s[p] < p {
            lemma_root_in_bounds(s, s[p] as int);
            assert(r < p);
            assert(t[p] == r);
            lemma_root_in_bounds(s, r);
            assert(t[r] == s[r]);
            assert(root_in(t, r) == r);
        } else {
            assert(t =~= s);
        }
    } else {
        if s[i] < i {
            lemma_root_in_compress(s, p, s[i] as int);
        }
    }
}

/// Pointing the larger of two roots at the smaller moves exactly the members
/// of the larger root's set to the smaller root.
proof fn lemma_root_in_union(s: Seq<usize>, rmin: int, rmax: int, i: int)
    requires
        forall|k: int| 0 <= k < s.len() ==> #[trigger] s[k] <= k,
        0 <= rmin < rmax < s.len(),
        s[rmin] == rmin,
        s[rmax] == rmax,
        0 <= i < s.len(),
    ensures
        root_in(s.update(rmax, rmin as usize), i) == (if root_in(s, i) == rmax {
            rmin
        } else {
            root_in(s, i)
        }),
    decreases i,
{
    let t = s.update(rmax, rmin as usize);
    if i == rmax {
        assert(t[rmax] == rmin);
        assert(t[rmin] == rmin);
        assert(root_in(t, rmin) == rmin);
    } else {
        if s[i] < i {
            lemma_root_in_union(s, rmin, rmax, s[i] as int);
        }
    }
}

/// A disjoint-set forest over the numbers below its length.  Every parent
/// link points to a number no larger than its node, so chains of parents
/// always reach a root.
pub struct UnionFindTree {
    parents: Vec<usize>,
}

impl UnionFindTree {
    /// How many elements the forest tracks.
    pub closed spec fn len(self) -> nat {
        self.parents@.len()
    }

    /// Every parent is no larger than its node.
    pub closed spec fn wf(self) -> bool {
        forall|k: int| 0 <= k < self.parents@.len() ==> #[trigger] self.parents@[k] <= k
    }

    /// The representative of `i`'s set.
    pub closed spec fn root_of(self, i: int) -> int {
        root_in(self.parents@, i)
    }

    /// A fresh forest of `n` singleton sets: every element represents itself.
    pub fn new(n: usize) -> (r: Self)
        ensures
            r.wf(),
            r.len() == n,
            forall|i: int| 0 <= i < n ==> r.root_of(i) == i,
    {
        let mut parents: Vec<usize> = Vec::new();
        let mut i: usize = 0;
        while i < n
            invariant
                parents@.len() == i <= n,
                forall|k: int| 0 <= k < i ==> #[trigger] parents@[k] == k,
            decreases n - i,
        {
            parents.push(i);
            i = i + 1;
        }
        UnionFindTree { parents }
    }

    /// Get root with compressing path: returns the representative of `x` and
    /// re-points everything on the way at it, without changing any set.
    pub fn root(&mut self, x: usize) -> (r: usize)
        requires
            old(self).wf(),
            x < old(self).len(),
        ensures
            final(self).wf(),
            final(self).len() == old(self).len(),
            r == old(self).root_of(x as int),
            r < old(self).len(),
            forall|i: int|
                0 <= i < old(self).len() ==> #[trigger] final(self).root_of(i) == old(self).root_of(
                    i,
                ),
    {
        let ghost s0 = self.parents@;
        let mut paths: Vec<usize> = Vec::new();
        let mut current_x = x;
        while self.parents[current_x] != current_x
            invariant
                self.parents@ == s0,
                self.wf(),
                current_x < self.len(),
                root_in(s0, current_x as int) == root_in(s0, x as int),
                forall|k: int|
                    0 <= k < paths@.len() ==> #[trigger] paths@[k] < s0.len() && root_in(
                        s0,
                        paths@[k] as int,
                    ) == root_in(s0, x as int),
            decreases current_x,
        {
            paths.push(current_x);
            current_x = self.parents[current_x];
        }
        proof {
            assert(root_in(s0, current_x as int) == current_x);
        }
        let mut k: usize = 0;
        while k < paths.len()
            invariant
                self.wf(),
                self.parents@.len() == s0.len(),
                k <= paths@.len(),
                current_x < s0.len(),
                forall|i: int|
                    0 <= i < s0.len() ==> #[trigger] root_in(self.parents@, i) == root_in(s0, i),
                forall|t: int|
                    0 <= t < paths@.len() ==> #[trigger] paths@[t] < s0.len() && root_in(
                        s0,
                        paths@[t] as int,
                    ) == current_x,
            decreases paths@.len() - k,
        {
            let p = paths[k];
            let ghost mid = self.parents@;
            proof {
                assert(root_in(mid, p as int) == current_x);
            }
            self.parents[p] = current_x;
            proof {
                assert(self.parents@ =~= mid.update(p as int, root_in(mid, p as int) as usize));
                lemma_root_in_bounds(mid, p as int);
                assert forall|i: int| 0 <= i < s0.len() implies #[trigger] root_in(
                    self.parents@,
                    i,
                ) == root_in(s0, i) by {
                    lemma_root_in_compress(mid, p as int, i);
                }
            }
            k = k + 1;
        }
        current_x
    }

    /// Check if two nodes are in the same set
    pub fn is_same(&mut self, x: usize, y: usize) -> (r: bool)
        requires
            old(self).wf(),
            x < old(self).len(),
            y < old(self).len(),
        ensures
            final(self).wf(),
            final(self).len() == old(self).len(),
            forall|i: int|
                0 <= i < old(self).len() ==> #[trigger] final(self).root_of(i) == old(self).root_of(
                    i,
                ),
            r == (old(self).root_of(x as int) == old(self).root_of(y as int)),
    {
        let root_x = self.root(x);
        let root_y = self.root(y);
        root_x == root_y
    }

    /// Unite two nodes: afterwards two elements share a representative
    /// exactly when they already did, or one sat with `x` and the other
    /// with `y`.
    pub fn unite(&mut self, x: usize, y: usize)
        requires
            old(self).wf(),
            x < old(self).len(),
            y < old(self).len(),
        ensures
            final(self).wf(),
            final(self).len() == old(self).len(),
            forall|i: int, j: int|
                0 <= i < old(self).len() && 0 <= j < old(self).len() ==> ((
                #[trigger] final(self).root_of(i) == #[trigger] final(self).root_of(j)) <==> (old(
                    self,
                ).root_of(i) == old(self).root_of(j) || (old(self).root_of(i) == old(self).root_of(
                    x as int,
                ) && old(self).root_of(j) == old(self).root_of(y as int)) || (old(self).root_of(i)
                    == old(self).root_of(y as int) && old(self).root_of(j) == old(self).root_of(
                    x as int,
                )))),
    {
        let root_x = self.root(x);
        let root_y = self.root(y);
        proof {
            assert(self.root_of(x as int) == root_x && self.root_of(y as int) == root_y);
            assert forall|i: int|
                0 <= i < old(self).len() implies #[trigger] root_in(self.parents@, i) == old(
                self,
            ).root_of(i) by {
                assert(self.root_of(i) == old(self).root_of(i));
            }
        }
        if root_x != root_y {
            let ghost mid = self.parents@;
            let rmin = if root_x < root_y {
                root_x
            } else {
                root_y
            };
            let rmax = if root_x < root_y {
                root_y
            } else {
                root_x
            };
            proof {
                lemma_root_in_bounds(mid, x as int);
                lemma_root_in_bounds(mid, y as int);
                assert(mid[root_x as int] == root_x && mid[root_y as int] == root_y);
            }
            self.parents[rmax] = rmin;
            proof {
                assert(self.parents@ =~= mid.update(rmax as int, rmin as usize));
                assert forall|i: int| 0 <= i < mid.len() implies #[trigger] root_in(
                    self.parents@,
                    i,
                ) == (if root_in(mid, i) == rmax {
                    rmin as int
                } else {
                    root_in(mid, i)
                }) by {
                    lemma_root_in_union(mid, rmin as int, rmax as int, i);
                }
                assert forall|i: int|
                    0 <= i < old(self).len() implies #[trigger] self.root_of(i) == (if old(
                    self,
                ).root_of(i) == root_x || old(self).root_of(i) == root_y {
                    rmin as int
                } else {
                    old(self).root_of(i)
                }) by {
                    assert(root_in(mid, i) == old(self).root_of(i));
                }
            }
        }
    }
}

} // verus!
