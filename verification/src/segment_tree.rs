use vstd::prelude::*;

verus! {

/// An associative combining operation with which a `SegmentTree` summarises
/// ranges.  The default instances compute the minimum of the two operands.
pub trait Combine: Sized + Copy {
    /// The mathematical meaning of `combine`.
    spec fn combine_spec(a: Self, b: Self) -> Self;

    /// The executable combining operation.
    fn combine(a: Self, b: Self) -> (r: Self)
        ensures
            r == Self::combine_spec(a, b),
    ;

    /// The operation is associative.
    proof fn lemma_combine_assoc(a: Self, b: Self, c: Self)
        ensures
            Self::combine_spec(Self::combine_spec(a, b), c) == Self::combine_spec(
                a,
                Self::combine_spec(b, c),
            ),
    ;
}

/// `id` leaves every value unchanged when combined with it, on either side.
pub open spec fn is_identity<T: Combine>(id: T) -> bool {
    &&& forall|x: T| #[trigger] T::combine_spec(x, id) == x
    &&& forall|x: T| #[trigger] T::combine_spec(id, x) == x
}

impl Combine for usize {
    open spec fn combine_spec(a: usize, b: usize) -> usize {
        if a <= b {
            a
        } else {
            b
        }
    }

    fn combine(a: usize, b: usize) -> (r: usize) {
        if a <= b {
            a
        } else {
            b
        }
    }

    proof fn lemma_combine_assoc(a: usize, b: usize, c: usize) {
    }
}

impl Combine for u64 {
    open spec fn combine_spec(a: u64, b: u64) -> u64 {
        if a <= b {
            a
        } else {
            b
        }
    }

    fn combine(a: u64, b: u64) -> (r: u64) {
        if a <= b {
            a
        } else {
            b
        }
    }

    proof fn lemma_combine_assoc(a: u64, b: u64, c: u64) {
    }
}

impl Combine for i64 {
    open spec fn combine_spec(a: i64, b: i64) -> i64 {
        if a <= b {
            a
        } else {
            b
        }
    }

    fn combine(a: i64, b: i64) -> (r: i64) {
        if a <= b {
            a
        } else {
            b
        }
    }

    proof fn lemma_combine_assoc(a: i64, b: i64, c: i64) {
    }
}

impl Combine for char {
    open spec fn combine_spec(a: char, b: char) -> char {
        if a as u32 <= b as u32 {
            a
        } else {
            b
        }
    }

    fn combine(a: char, b: char) -> (r: char) {
        if a as u32 <= b as u32 {
            a
        } else {
            b
        }
    }

    proof fn lemma_combine_assoc(a: char, b: char, c: char) {
    }
}

/// `n` is 1, 2, 4, 8, ...
pub open spec fn is_pow2(n: nat) -> bool
    decreases n,
{
    if n == 0 {
        false
    } else if n == 1 {
        true
    } else {
        n % 2 == 0 && is_pow2(n / 2)
    }
}

/// Two powers of two are either equal or one is at most half the other.
pub proof fn lemma_pow2_compare(a: nat, b: nat)
    requires
        is_pow2(a),
        is_pow2(b),
        a < b,
    ensures
        2 * a <= b,
    decreases b,
{
    if b > 1 {
        if a < b / 2 {
            lemma_pow2_compare(a, b / 2);
        } else if a > b / 2 {
            lemma_pow2_compare(b / 2, a);
        }
    }
}

/// The combination of `s[lo]`, ..., `s[hi - 1]`, in order, starting from `id`.
pub open spec fn range_combine<T: Combine>(s: Seq<T>, id: T, lo: int, hi: int) -> T
    decreases hi - lo,
{
    if lo >= hi {
        id
    } else {
        T::combine_spec(range_combine(s, id, lo, hi - 1), s[hi - 1])
    }
}

/// A range may be combined in two halves split at any point between its ends.
pub proof fn lemma_range_split<T: Combine>(s: Seq<T>, id: T, lo: int, m: int, hi: int)
    requires
        is_identity(id),
        lo <= m <= hi,
    ensures
        range_combine(s, id, lo, hi) == T::combine_spec(
            range_combine(s, id, lo, m),
            range_combine(s, id, m, hi),
        ),
    decreases hi - m,
{
    if m == hi {
        assert(T::combine_spec(range_combine(s, id, lo, m), id) == range_combine(s, id, lo, m));
    } else {
        lemma_range_split(s, id, lo, m, hi - 1);
        T::lemma_combine_assoc(
            range_combine(s, id, lo, m),
            range_combine(s, id, m, hi - 1),
            s[hi - 1],
        );
    }
}

/// A range that holds only the identity combines to the identity.
pub proof fn lemma_range_all_identity<T: Combine>(s: Seq<T>, id: T, lo: int, hi: int)
    requires
        is_identity(id),
        forall|i: int| lo <= i < hi ==> s[i] == id,
    ensures
        range_combine(s, id, lo, hi) == id,
    decreases hi - lo,
{
    if lo < hi {
        lemma_range_all_identity(s, id, lo, hi - 1);
    }
}

/// An empty range combines to the identity.
pub proof fn lemma_range_empty<T: Combine>(s: Seq<T>, id: T, k: int)
    ensures
        range_combine(s, id, k, k) == id,
{
}

/// For the minimum operation on numbers, the combination of a range really
/// is its least member: it never exceeds any member, and it is either the
/// identity or attained by a member of the range.
pub proof fn lemma_range_combine_is_min(s: Seq<usize>, id: usize, lo: int, hi: int)
    requires
        is_identity(id),
    ensures
        forall|k: int| lo <= k < hi ==> range_combine(s, id, lo, hi) <= s[k],
        range_combine(s, id, lo, hi) == id || exists|k: int|
            lo <= k < hi && s[k] == range_combine(s, id, lo, hi),
    decreases hi - lo,
{
    if lo < hi {
        lemma_range_combine_is_min(s, id, lo, hi - 1);
        let prev = range_combine(s, id, lo, hi - 1);
        let r = range_combine(s, id, lo, hi);
        assert(r == usize::combine_spec(prev, s[hi - 1]));
        if r != id {
            if prev <= s[hi - 1] {
                let k = choose|k: int| lo <= k < hi - 1 && s[k] == prev;
                assert(s[k] == r);
            } else {
                assert(s[hi - 1] == r);
            }
        }
    }
}

/// The value every well-formed tree must hold at node `ind`, as a function of
/// the sequence of leaves alone: leaves hold their own value, and each
/// internal node holds the combination of its two children.
pub open spec fn node_val<T: Combine>(n: nat, leaves: Seq<T>, ind: nat) -> T
    decreases 2 * n - ind,
{
    if ind + 1 >= n {
        leaves[ind - (n - 1)]
    } else {
        T::combine_spec(node_val(n, leaves, 2 * ind + 1), node_val(n, leaves, 2 * ind + 2))
    }
}

/// Node `ind` of a tree with `n` leaves covers exactly the leaf range
/// `[left, right)`.  The product equation pins the position of the node:
/// it holds of the root (`ind == 0`, covering `[0, n)`) and is preserved
/// when stepping to either child with half the range.
pub open spec fn node_range_ok(n: nat, ind: nat, left: nat, right: nat) -> bool {
    &&& left < right <= n
    &&& is_pow2((right - left) as nat)
    &&& (ind + 1) * (right - left) == n + left
}

/// The node covering `[left, right)` holds the combination of exactly the
/// leaves `left`, ..., `right - 1`.
pub proof fn lemma_node_val_range<T: Combine>(
    n: nat,
    leaves: Seq<T>,
    id: T,
    ind: nat,
    left: nat,
    right: nat,
)
    requires
        is_identity(id),
        leaves.len() == n,
        is_pow2(n),
        node_range_ok(n, ind, left, right),
    ensures
        node_val(n, leaves, ind) == range_combine(leaves, id, left as int, right as int),
    decreases right - left,
{
    let size = (right - left) as nat;
    if size == 1 {
        assert(ind + 1 == n + left) by (nonlinear_arith)
            requires
                (ind + 1) * size == n + left,
                size == 1,
        ;
        assert(range_combine(leaves, id, left as int, left as int) == id);
        assert(range_combine(leaves, id, left as int, right as int) == T::combine_spec(
            id,
            leaves[left as int],
        ));
    } else {
        let half = size / 2;
        let mid = (left + half) as nat;
        assert(ind + 1 < n) by (nonlinear_arith)
            requires
                (ind + 1) * size == n + left,
                size >= 2,
                left + size <= n,
                n >= 1,
        ;
        assert((2 * ind + 2) * half == n + left && (2 * ind + 3) * half == n + mid)
            by (nonlinear_arith)
            requires
                (ind + 1) * size == n + left,
                size == 2 * half,
                mid == left + half,
        ;
        assert(node_range_ok(n, 2 * ind + 1, left, mid));
        assert(node_range_ok(n, 2 * ind + 2, mid, right));
        lemma_node_val_range(n, leaves, id, 2 * ind + 1, left, mid);
        lemma_node_val_range(n, leaves, id, 2 * ind + 2, mid, right);
        lemma_range_split(leaves, id, left as int, mid as int, right as int);
    }
}

/// A segment tree over `T`: a complete binary tree in a flat vector of
/// `2 * n - 1` nodes, where `n` is a power of two.  Node `i`'s children sit at
/// `2 * i + 1` and `2 * i + 2`; the leaves occupy the second half of the
/// vector.  Every internal node holds the combination of its children, so the
/// root summarises all `n` leaves.
pub struct SegmentTree<T: Combine> {
    pub n: usize,
    // Complete binary tree
    pub tree: Vec<T>,
    pub max_item: T,
}

impl<T: Combine> SegmentTree<T> {
    /// The identity element the tree was built with.
    pub open spec fn id(self) -> T {
        self.max_item
    }

    /// The logical content of the tree: its `n` leaves, in order.
    pub open spec fn leaves(self) -> Seq<T> {
        self.tree@.subrange(self.n - 1, 2 * self.n - 1)
    }

    /// Well-formed: `n` is a power of two, the flat vector has `2 * n - 1`
    /// nodes, the identity element really is an identity for `combine`, and
    /// each internal node holds the combination of its children.
    pub open spec fn wf(self) -> bool {
        &&& self.n >= 1
        &&& is_pow2(self.n as nat)
        &&& self.tree@.len() == 2 * self.n - 1
        &&& is_identity(self.id())
        &&& forall|i: int|
            0 <= i < self.n - 1 ==> self.tree@[i] == T::combine_spec(
                #[trigger] self.tree@[2 * i + 1],
                self.tree@[2 * i + 2],
            )
    }

    /// In a well-formed tree, every node holds the value `node_val` forces on
    /// it from the leaves.
    pub proof fn lemma_node_determined(self, ind: nat)
        requires
            self.wf(),
            ind < 2 * self.n - 1,
        ensures
            self.tree@[ind as int] == node_val(self.n as nat, self.leaves(), ind),
        decreases 2 * self.n - ind,
    {
        if ind + 1 >= self.n {
            assert(self.leaves()[ind - (self.n - 1)] == self.tree@[ind as int]);
        } else {
            self.lemma_node_determined(2 * ind + 1);
            self.lemma_node_determined(2 * ind + 2);
        }
    }

    /// Builds an all-identity tree whose leaf count is the smallest power of
    /// two at least `n` (at least 1).  `max_item` must be an identity for
    /// `combine`, e.g. the greatest value of `T` when `combine` is minimum.
    pub fn new(n: usize, max_item: T) -> (r: Self)
        requires
            is_identity(max_item),
            n <= usize::MAX / 4,
        ensures
            r.wf(),
            r.id() == max_item,
            r.n >= n,
            forall|m: nat| is_pow2(m) && m >= n ==> r.n <= m,
            forall|i: int| 0 <= i < r.n ==> r.leaves()[i] == max_item,
    {
        let mut actual_n: usize = 1;
        while actual_n < n
            invariant
                1 <= actual_n,
                is_pow2(actual_n as nat),
                actual_n == 1 || actual_n / 2 < n,
                n <= usize::MAX / 4,
            decreases 2 * n - actual_n,
        {
            actual_n = actual_n * 2;
        }
        let len = actual_n * 2 - 1;
        let mut tree: Vec<T> = Vec::new();
        let mut i: usize = 0;
        while i < len
            invariant
                tree@.len() == i,
                i <= len,
                forall|k: int| 0 <= k < i ==> tree@[k] == max_item,
            decreases len - i,
        {
            tree.push(max_item);
            i = i + 1;
        }
        let r = SegmentTree { n: actual_n, tree, max_item };
        proof {
            assert forall|m: nat| is_pow2(m) && m >= n implies r.n <= m by {
                if actual_n > 1 && m < actual_n {
                    lemma_pow2_compare(m, actual_n as nat);
                }
            }
            assert forall|i: int| 0 <= i < r.n implies r.leaves()[i] == max_item by {
                assert(r.leaves()[i] == r.tree@[r.n - 1 + i]);
            }
        }
        r
    }

    /// Builds a tree sized to `vec.len()` and loads the values of `vec` into
    /// the leading leaves, in order; the remaining leaves keep the identity.
    pub fn from_vec(vec: Vec<T>, max_item: T) -> (r: Self)
        requires
            is_identity(max_item),
            vec@.len() <= usize::MAX / 4,
        ensures
            r.wf(),
            r.id() == max_item,
            r.n >= vec@.len(),
            forall|m: nat| is_pow2(m) && m >= vec@.len() ==> r.n <= m,
            forall|i: int| 0 <= i < vec@.len() ==> r.leaves()[i] == vec@[i],
            forall|i: int| vec@.len() <= i < r.n ==> r.leaves()[i] == max_item,
    {
        let mut seg = SegmentTree::new(vec.len(), max_item);
        let mut i: usize = 0;
        while i < vec.len()
            invariant
                seg.wf(),
                seg.id() == max_item,
                i <= vec@.len() <= seg.n,
                forall|m: nat| is_pow2(m) && m >= vec@.len() ==> seg.n <= m,
                forall|k: int| 0 <= k < i ==> seg.leaves()[k] == vec@[k],
                forall|k: int| i <= k < seg.n ==> seg.leaves()[k] == max_item,
            decreases vec@.len() - i,
        {
            seg.update(i, vec[i]);
            i = i + 1;
        }
        seg
    }

    /// Overwrites the leaf at `ind` with `value` and recomputes each ancestor
    /// on the way back to the root, so that the tree is well formed again.
    pub fn update(&mut self, ind: usize, value: T)
        requires
            old(self).wf(),
            ind < old(self).n,
        ensures
            final(self).wf(),
            final(self).n == old(self).n,
            final(self).id() == old(self).id(),
            final(self).leaves() =~= old(self).leaves().update(ind as int, value),
    {
        let n = self.n;
        let nodes = self.tree.len();
        let ghost target = old(self).leaves().update(ind as int, value);
        let mut actual_ind = ind + n - 1;
        self.tree[actual_ind] = value;
        proof {
            assert(self.leaves() =~= target);
        }
        while actual_ind > 0
            invariant
                self.n == n,
                self.max_item == old(self).max_item,
                n >= 1,
                is_pow2(n as nat),
                self.tree@.len() == 2 * n - 1,
                is_identity(self.max_item),
                self.tree.len() == nodes,
                actual_ind < 2 * n - 1,
                self.leaves() =~= target,
                forall|i: int|
                    0 <= i < n - 1 && !(i < actual_ind && is_anc(i, (actual_ind - 1) / 2))
                        ==> self.tree@[i] == T::combine_spec(
                        #[trigger] self.tree@[2 * i + 1],
                        self.tree@[2 * i + 2],
                    ),
            decreases actual_ind,
        {
            let parent = (actual_ind - 1) / 2;
            let left_child = self.tree[2 * parent + 1];
            let right_child = self.tree[2 * parent + 2];
            let combined = T::combine(left_child, right_child);
            let ghost pre = self.tree@;
            self.tree[parent] = combined;
            proof {
                assert(self.leaves() =~= target);
                assert forall|i: int|
                    0 <= i < n - 1 && !(i < parent && is_anc(i, (parent - 1) / 2))
                        implies self.tree@[i] == T::combine_spec(
                        #[trigger] self.tree@[2 * i + 1],
                        self.tree@[2 * i + 2],
                    ) by {
                    if i == parent {
                    } else {
                        if i < actual_ind && is_anc(i, parent as int) {
                            lemma_anc_le(i, parent as int);
                            assert(is_anc(i, (parent - 1) / 2));
                            assert(false);
                        }
                        assert(pre[i] == T::combine_spec(pre[2 * i + 1], pre[2 * i + 2]));
                        assert(2 * i + 1 != parent && 2 * i + 2 != parent) by {
                            if 2 * i + 1 == parent || 2 * i + 2 == parent {
                                assert(i == (parent - 1) / 2);
                                assert(i < parent);
                                assert(is_anc(i, (parent - 1) / 2));
                            }
                        }
                    }
                }
            }
            actual_ind = parent;
        }
    }

    /// The combination of the leaves in the half-open range `[a, b)`; an
    /// empty range and the positions at `n` or beyond contribute the
    /// identity.  An inverted range (`a > b`) is rejected up front.
    pub fn query(&self, a: usize, b: usize) -> (r: T)
        requires
            self.wf(),
            a <= b,
        ensures
            r == range_combine(
                self.leaves(),
                self.id(),
                a as int,
                vstd::math::min(b as int, self.n as int),
            ),
    {
        proof {
            assert(node_range_ok(self.n as nat, 0, 0, self.n as nat)) by {
                assert(1 * (self.n as int) == self.n as int);
            }
        }
        self.inner_query(a, b, 0, 0, self.n)
    }

    fn inner_query(&self, a: usize, b: usize, ind: usize, left: usize, right: usize) -> (r: T)
        requires
            self.wf(),
            node_range_ok(self.n as nat, ind as nat, left as nat, right as nat),
        ensures
            r == range_combine(
                self.leaves(),
                self.id(),
                vstd::math::max(a as int, left as int),
                vstd::math::min(b as int, right as int),
            ),
        decreases right - left,
    {
        let ghost s = self.leaves();
        let ghost id = self.id();
        let ghost lo = vstd::math::max(a as int, left as int);
        let ghost hi = vstd::math::min(b as int, right as int);
        if right <= a || b <= left {
            return self.max_item;
        }
        proof {
            assert(ind + 1 <= 2 * self.n - 1) by (nonlinear_arith)
                requires
                    ((ind + 1) as nat) * ((right - left) as nat) == self.n as nat + left as nat,
                    left < right <= self.n,
                    right - left >= 1,
            ;
        }
        if a <= left && right <= b {
            proof {
                self.lemma_node_determined(ind as nat);
                lemma_node_val_range(
                    self.n as nat,
                    s,
                    id,
                    ind as nat,
                    left as nat,
                    right as nat,
                );
            }
            self.tree[ind]
        } else {
            let size = right - left;
            proof {
                assert(size >= 2) by {
                    if size == 1 {
                        assert(a <= left && right <= b);
                    }
                }
                assert((2 * ind + 2) * ((size / 2) as int) == self.n + left && (2 * ind + 3) * (
                (size / 2) as int) == self.n + left + size / 2) by (nonlinear_arith)
                    requires
                        ((ind + 1) as int) * (size as int) == self.n + left,
                        size as int == 2 * ((size / 2) as int),
                ;
            }
            proof {
                assert(ind + 1 < self.n) by (nonlinear_arith)
                    requires
                        ((ind + 1) as int) * (size as int) == self.n + left,
                        size >= 2,
                        left + size <= self.n,
                        self.n >= 1,
                ;
                assert(self.tree.len() == self.tree@.len());
            }
            let mid = left + size / 2;
            let value_l = self.inner_query(a, b, 2 * ind + 1, left, mid);
            let value_r = self.inner_query(a, b, 2 * ind + 2, mid, right);
            proof {
                let h1 = vstd::math::min(b as int, mid as int);
                let l2 = vstd::math::max(a as int, mid as int);
                if lo >= hi {
                    assert(range_combine(s, id, lo, h1) == id);
                    assert(range_combine(s, id, l2, hi) == id);
                    assert(range_combine(s, id, lo, hi) == id);
                } else if hi <= mid {
                    assert(h1 == hi);
                    assert(range_combine(s, id, l2, hi) == id);
                } else if lo >= mid {
                    assert(range_combine(s, id, lo, h1) == id);
                    assert(l2 == lo);
                } else {
                    assert(h1 == mid && l2 == mid);
                    lemma_range_split(s, id, lo, mid as int, hi);
                }
            }
            T::combine(value_l, value_r)
        }
    }
}

/// Distinct sequences of updates that leave the same leaves behind leave the
/// same flat vector behind: a well-formed tree's contents are a function of
/// its leaf count and leaves alone.
pub proof fn lemma_tree_determined_by_leaves<T: Combine>(t1: SegmentTree<T>, t2: SegmentTree<T>)
    requires
        t1.wf(),
        t2.wf(),
        t1.n == t2.n,
        t1.leaves() =~= t2.leaves(),
    ensures
        t1.tree@ =~= t2.tree@,
{
    assert forall|i: int| 0 <= i < t1.tree@.len() implies t1.tree@[i] == t2.tree@[i] by {
        t1.lemma_node_determined(i as nat);
        t2.lemma_node_determined(i as nat);
    }
}

/// `i` lies on the chain of parents from node `j` up to the root.
pub open spec fn is_anc(i: int, j: int) -> bool
    decreases j,
{
    if i == j {
        true
    } else if j <= 0 {
        false
    } else {
        is_anc(i, (j - 1) / 2)
    }
}

/// An ancestor never has a larger index than its descendant.
proof fn lemma_anc_le(i: int, j: int)
    requires
        is_anc(i, j),
    ensures
        i <= j,
    decreases j,
{
    if i != j && j > 0 {
        lemma_anc_le(i, (j - 1) / 2);
    }
}

} // verus!
