use vstd::prelude::*;
use crate::graph::count_in;
use crate::graph::lemma_count_in_le_len;
use crate::graph::lemma_count_in_positive;
use crate::graph::lemma_count_in_prefix;
use crate::graph::lemma_count_in_update;
use std::collections::HashMap;

verus! {

/// The items of the first `j` positions of `s` whose flag in `b` is set, in
/// order.
pub open spec fn kept_upto<T>(s: Seq<T>, b: Seq<bool>, j: int) -> Seq<T>
    decreases j,
{
    if j <= 0 {
        Seq::empty()
    } else {
        kept_upto(s, b, j - 1) + (if b[j - 1] {
            seq![s[j - 1]]
        } else {
            Seq::empty()
        })
    }
}

pub trait Vectools where Self: Sized {
    /// Which flag sequences `keep` takes.
    spec fn keep_req(&self, bools: Seq<bool>) -> bool;

    /// Everything `keep` promises: the state after, given the state before.
    spec fn keep_post(pre: Self, bools: Seq<bool>, post: Self) -> bool;

    /// Retains the items whose flag is set, in order.
    fn keep(&mut self, bools: &[bool])
        requires
            old(self).keep_req(bools@),
        ensures
            Self::keep_post(*old(self), bools@, *final(self)),
    ;
}

impl<T: Copy> Vectools for Vec<T> {
    open spec fn keep_req(&self, bools: Seq<bool>) -> bool {
        bools.len() >= self@.len()
    }

    open spec fn keep_post(pre: Self, bools: Seq<bool>, post: Self) -> bool {
        post@ == kept_upto(pre@, bools, pre@.len() as int)
    }

    fn keep(&mut self, bools: &[bool]) {
        let mut result: Vec<T> = Vec::new();
        let mut i: usize = 0;
        let len = self.len();
        while i < len
            invariant
                len == self@.len() <= bools@.len(),
                i <= len,
                result@ == kept_upto(self@, bools@, i as int),
            decreases len - i,
        {
            if bools[i] {
                result.push(self[i]);
            }
            i = i + 1;
        }
        *self = result;
    }
}

/// How often each item occurs: the returned map sends every item of `v` to
/// its number of occurrences, and holds no other key.
pub fn count_items(v: &[usize]) -> (r: HashMap<usize, usize>)
    ensures
        forall|k: usize| #[trigger] r@.contains_key(k) <==> v@.contains(k),
        forall|k: usize| #[trigger] r@.contains_key(k) ==> r@[k] == count_in(v@, k),
{
    let mut counter: HashMap<usize, usize> = HashMap::new();
    let mut i: usize = 0;
    while i < v.len()
        invariant
            i <= v@.len(),
            forall|k: usize|
                #![trigger counter@.contains_key(k)]
                counter@.contains_key(k) <==> count_in(v@.subrange(0, i as int), k) > 0,
            forall|k: usize|
                #![trigger counter@.contains_key(k)]
                counter@.contains_key(k) ==> counter@[k] == count_in(v@.subrange(0, i as int), k),
        decreases v@.len() - i,
    {
        let item = v[i];
        let count = match counter.get(&item) {
            Some(c) => {
                proof {
                    lemma_count_in_le_len(v@.subrange(0, i as int), item);
                }
                *c + 1
            },
            None => 1,
        };
        let ghost pre_map = counter@;
        counter.insert(item, count);
        proof {
            assert(counter@ == pre_map.insert(item, count));
            assert(count == count_in(v@.subrange(0, i + 1), item)) by {
                lemma_count_in_prefix(v@, i as int, item);
            }
            assert forall|k: usize|
                #![trigger counter@.contains_key(k)]
                (counter@.contains_key(k) <==> count_in(v@.subrange(0, i + 1), k) > 0) && (
            counter@.contains_key(k) ==> counter@[k] == count_in(v@.subrange(0, i + 1), k)) by {
                lemma_count_in_prefix(v@, i as int, k);
                if k != item {
                    assert(counter@.contains_key(k) == pre_map.contains_key(k));
                    assert(count_in(v@.subrange(0, i + 1), k) == count_in(
                        v@.subrange(0, i as int),
                        k,
                    ));
                }
            }
        }
        i = i + 1;
    }
    proof {
        assert(v@.subrange(0, v@.len() as int) =~= v@);
        assert forall|k: usize|
            #![trigger counter@.contains_key(k)]
            counter@.contains_key(k) <==> v@.contains(k) by {
            lemma_count_in_positive(v@, k);
        }
    }
    counter
}

/// Sorts in place into non-decreasing order, keeping every occurrence count
/// (the result is a permutation of the input).
pub fn sort_ascending(v: &mut Vec<usize>)
    ensures
        final(v)@.len() == old(v)@.len(),
        forall|a: int, b: int| 0 <= a < b < final(v)@.len() ==> final(v)@[a] <= final(v)@[b],
        forall|x: usize| #[trigger] count_in(final(v)@, x) == count_in(old(v)@, x),
{
    let len = v.len();
    let mut i: usize = 1;
    while i < len
        invariant
            len == v@.len() == old(v)@.len(),
            1 <= i || len == 0,
            i <= len || (len == 0 && i == 1),
            forall|a: int, b: int| 0 <= a < b < i ==> v@[a] <= v@[b],
            forall|x: usize| #[trigger] count_in(v@, x) == count_in(old(v)@, x),
        decreases len - i,
    {
        let mut k: usize = i;
        while k > 0 && v[k - 1] > v[k]
            invariant
                len == v@.len() == old(v)@.len(),
                k <= i < len,
                forall|a: int, b: int| 0 <= a < b <= i && b != k ==> v@[a] <= v@[b],
                forall|a: int| k < a <= i ==> v@[k as int] <= v@[a],
                forall|x: usize| #[trigger] count_in(v@, x) == count_in(old(v)@, x),
            decreases k,
        {
            let ghost pre = v@;
            let lo = v[k - 1];
            let hi = v[k];
            v[k - 1] = hi;
            v[k] = lo;
            proof {
                assert forall|x: usize| #[trigger] count_in(v@, x) == count_in(pre, x) by {
                    lemma_count_in_update(pre, k - 1, hi, x);
                    lemma_count_in_update(pre.update(k - 1, hi), k as int, lo, x);
                }
            }
            k = k - 1;
        }
        i = i + 1;
    }
}

} // verus!
