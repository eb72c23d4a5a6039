use vstd::prelude::*;
use crate::graph::lemma_count_in_positive;
use crate::vectools::sort_ascending;

verus! {

broadcast use vstd::seq_lib::lemma_seq_contains_after_push;

/// One more position of a prefix adds exactly that item to what it contains.
proof fn lemma_prefix_contains(s: Seq<usize>, j: int, x: usize)
    requires
        0 <= j < s.len(),
    ensures
        s.subrange(0, j + 1).contains(x) <==> (s.subrange(0, j).contains(x) || s[j] == x),
{
    assert(s.subrange(0, j + 1) =~= s.subrange(0, j).push(s[j]));
}

/// The distinct values of `values`, in strictly increasing order.
fn sorted_unique(values: &Vec<usize>) -> (u: Vec<usize>)
    requires
        values@.len() > 0,
    ensures
        u@.len() >= 1,
        forall|a: int, b: int| 0 <= a < b < u@.len() ==> u@[a] < u@[b],
        forall|x: usize| u@.contains(x) <==> values@.contains(x),
{
    let mut sorted: Vec<usize> = Vec::new();
    let mut i: usize = 0;
    while i < values.len()
        invariant
            sorted@.len() == i <= values@.len(),
            sorted@ == values@.subrange(0, i as int),
        decreases values@.len() - i,
    {
        sorted.push(values[i]);
        proof {
            assert(sorted@ =~= values@.subrange(0, i + 1));
        }
        i = i + 1;
    }
    proof {
        assert(values@.subrange(0, values@.len() as int) =~= values@);
    }
    sort_ascending(&mut sorted);
    let mut u: Vec<usize> = Vec::new();
    u.push(sorted[0]);
    proof {
        assert(sorted@.subrange(0, 1) =~= Seq::empty().push(sorted@[0]));
        assert(Seq::<usize>::empty().push(sorted@[0]).contains(sorted@[0]));
    }
    let mut t: usize = 1;
    while t < sorted.len()
        invariant
            1 <= t <= sorted@.len(),
            u@.len() >= 1,
            forall|a: int, b: int| 0 <= a < b < sorted@.len() ==> sorted@[a] <= sorted@[b],
            forall|a: int, b: int| 0 <= a < b < u@.len() ==> u@[a] < u@[b],
            u@.last() == sorted@[t - 1],
            forall|x: usize| u@.contains(x) <==> sorted@.subrange(0, t as int).contains(x),
        decreases sorted@.len() - t,
    {
        let ghost u_pre = u@;
        let current = sorted[t];
        let last = u[u.len() - 1];
        if current != last {
            proof {
                assert(u_pre.contains(u_pre.last()));
            }
            u.push(current);
        } else {
            proof {
                assert(u_pre.contains(u_pre.last()));
            }
        }
        proof {
            lemma_prefix_contains(sorted@, t as int, current);
            assert forall|x: usize| u@.contains(x) implies sorted@.subrange(
                0,
                t + 1,
            ).contains(x) by {
                lemma_prefix_contains(sorted@, t as int, x);
            }
            assert forall|x: usize| sorted@.subrange(0, t + 1).contains(x) implies u@.contains(
                x,
            ) by {
                lemma_prefix_contains(sorted@, t as int, x);
            }
        }
        t = t + 1;
    }
    proof {
        assert(sorted@.subrange(0, sorted@.len() as int) =~= sorted@);
        assert forall|x: usize| u@.contains(x) <==> values@.contains(x) by {
            lemma_count_in_positive(sorted@, x);
            lemma_count_in_positive(values@, x);
        }
    }
    u
}

/// Make map of Coordinate Compression
///
/// Returns a lookup table over `0 ..= max(values)` and the number of distinct
/// values: slot `x` holds the rank of `x` among the distinct values of
/// `values` (counting from 0 upward in value order) when `x` occurs in
/// `values`, and nothing otherwise.
pub fn compression_map(values: Vec<usize>) -> (r: (Vec<Option<usize>>, usize))
    requires
        values@.len() > 0,
        forall|i: int| 0 <= i < values@.len() ==> #[trigger] values@[i] < usize::MAX,
    ensures
        r.0@.len() >= 1,
        values@.contains((r.0@.len() - 1) as usize),
        forall|i: int| 0 <= i < values@.len() ==> #[trigger] values@[i] < r.0@.len(),
        forall|x: int| 0 <= x < r.0@.len() ==> ((#[trigger] r.0@[x]) is Some <==> values@.contains(x as usize)),
        forall|x: int, y: int|
            0 <= x < y < r.0@.len() && r.0@[x] is Some && r.0@[y] is Some ==> (#[trigger] r.0@[x])->0
                < (#[trigger] r.0@[y])->0,
        forall|x: int| 0 <= x < r.0@.len() && (#[trigger] r.0@[x]) is Some ==> r.0@[x]->0 < r.1,
        r.1 == values@.to_set().len(),
{
    let u = sorted_unique(&values);
    let last = u[u.len() - 1];
    proof {
        assert(u@.contains(u@.last()));
        let w = choose|w: int| 0 <= w < values@.len() && values@[w] == u@.last();
        assert(values@[w] < usize::MAX);
    }
    let size = last + 1;
    let mut map: Vec<Option<usize>> = Vec::new();
    let mut j: usize = 0;
    while j < size
        invariant
            map@.len() == j <= size,
            forall|x: int| 0 <= x < j ==> (#[trigger] map@[x]) is None,
        decreases size - j,
    {
        map.push(None);
        j = j + 1;
    }
    let mut t: usize = 0;
    while t < u.len()
        invariant
            map@.len() == size,
            t <= u@.len(),
            size == u@.last() + 1,
            forall|a: int, b: int| 0 <= a < b < u@.len() ==> u@[a] < u@[b],
            forall|k: int| 0 <= k < t ==> #[trigger] map@[u@[k] as int] == Some(k as usize),
            forall|x: int|
                0 <= x < size && (forall|k: int| 0 <= k < t ==> #[trigger] u@[k] != x) ==> (
                map@[x] is None),
        decreases u@.len() - t,
    {
        proof {
            if t < u@.len() - 1 {
                assert(u@[t as int] < u@[u@.len() - 1]);
            }
        }
        let key = u[t];
        map[key] = Some(t);
        t = t + 1;
    }
    proof {
        let m = map@;
        let n = u@.len();
        assert forall|x: int| 0 <= x < m.len() implies ((#[trigger] m[x]) is Some <==> values@.contains(
            x as usize,
        )) by {
            if m[x] is Some {
                if forall|k: int| 0 <= k < n ==> #[trigger] u@[k] != x {
                    assert(m[x] is None);
                }
                let k = choose|k: int| 0 <= k < n && !(u@[k] != x);
                assert(u@.contains(x as usize));
            }
            if values@.contains(x as usize) {
                assert(u@.contains(x as usize));
                let k = choose|k: int| 0 <= k < n && u@[k] == x as usize;
                assert(m[u@[k] as int] == Some(k as usize));
            }
        }
        assert forall|x: int, y: int|
            0 <= x < y < m.len() && m[x] is Some && m[y] is Some implies (#[trigger] m[x])->0 < (
        #[trigger] m[y])->0 by {
            let kx = choose|k: int| 0 <= k < n && !(u@[k] != x);
            let ky = choose|k: int| 0 <= k < n && !(u@[k] != y);
            assert(m[x] == Some(kx as usize) && m[y] == Some(ky as usize));
            if kx >= ky {
                if kx > ky {
                    assert(u@[ky] < u@[kx]);
                }
            }
        }
        assert forall|x: int| 0 <= x < m.len() && (#[trigger] m[x]) is Some implies m[x]->0 < n by {
            let kx = choose|k: int| 0 <= k < n && !(u@[k] != x);
            assert(m[x] == Some(kx as usize));
        }
        assert(u@.no_duplicates()) by {
            assert forall|a: int, b: int|
                0 <= a < u@.len() && 0 <= b < u@.len() && a != b implies u@[a] != u@[b] by {
                if a < b {
                    assert(u@[a] < u@[b]);
                } else {
                    assert(u@[b] < u@[a]);
                }
            }
        }
        u@.unique_seq_to_set();
        assert(u@.to_set() =~= values@.to_set()) by {
            assert forall|x: usize| u@.to_set().contains(x) implies values@.to_set().contains(
                x,
            ) by {
                assert(u@.contains(x));
                assert(values@.contains(x));
            }
            assert forall|x: usize| values@.to_set().contains(x) implies u@.to_set().contains(
                x,
            ) by {
                assert(values@.contains(x));
                assert(u@.contains(x));
            }
        }
        assert(u@.contains(u@.last()));
        assert forall|i: int| 0 <= i < values@.len() implies #[trigger] values@[i] < m.len() by {
            assert(values@.contains(values@[i]));
            assert(u@.contains(values@[i]));
            let k = choose|k: int| 0 <= k < n && u@[k] == values@[i];
            if k < n - 1 {
                assert(u@[k] < u@[n - 1]);
            }
        }
    }
    (map, u.len())
}

/// Replaces each value by its rank among the distinct values of the input
/// (0 for the smallest), and also returns the number of distinct values:
/// the order and the equalities of the input are kept exactly, in the
/// smallest possible range of numbers.
pub fn compress(values: Vec<usize>) -> (r: (Vec<usize>, usize))
    requires
        values@.len() > 0,
        forall|i: int| 0 <= i < values@.len() ==> #[trigger] values@[i] < usize::MAX,
    ensures
        r.0@.len() == values@.len(),
        forall|i: int| 0 <= i < values@.len() ==> #[trigger] r.0@[i] < r.1,
        forall|i: int, j: int|
            0 <= i < values@.len() && 0 <= j < values@.len() ==> ((#[trigger] r.0@[i]
                < #[trigger] r.0@[j]) <==> values@[i] < values@[j]),
{
    let mut copy: Vec<usize> = Vec::new();
    let mut i: usize = 0;
    while i < values.len()
        invariant
            copy@.len() == i <= values@.len(),
            forall|k: int| 0 <= k < i ==> #[trigger] copy@[k] == values@[k],
        decreases values@.len() - i,
    {
        copy.push(values[i]);
        i = i + 1;
    }
    proof {
        assert(copy@ =~= values@);
    }
    let (compression_map, w) = compression_map(copy);
    let mut out: Vec<usize> = Vec::new();
    let mut i2: usize = 0;
    while i2 < values.len()
        invariant
            i2 <= values@.len(),
            out@.len() == i2,
            compression_map@.len() >= 1,
            forall|k: int| 0 <= k < values@.len() ==> #[trigger] values@[k] < usize::MAX,
            forall|x: int|
                0 <= x < compression_map@.len() ==> ((#[trigger] compression_map@[x]) is Some
                    <==> values@.contains(x as usize)),
            forall|x: int, y: int|
                0 <= x < y < compression_map@.len() && compression_map@[x] is Some
                    && compression_map@[y] is Some ==> (#[trigger] compression_map@[x])->0 < (
                #[trigger] compression_map@[y])->0,
            forall|x: int|
                0 <= x < compression_map@.len() && (#[trigger] compression_map@[x]) is Some
                    ==> compression_map@[x]->0 < w,
            forall|x: int|
                0 <= x < values@.len() ==> #[trigger] values@[x] < compression_map@.len(),
            forall|k: int|
                0 <= k < i2 ==> #[trigger] out@[k] == compression_map@[values@[k] as int]->0,
        decreases values@.len() - i2,
    {
        let v = values[i2];
        proof {
            assert(values@.contains(values@[i2 as int]));
        }
        let slot = compression_map[v];
        out.push(slot.unwrap());
        i2 = i2 + 1;
    }
    proof {
        assert forall|i: int, j: int|
            0 <= i < values@.len() && 0 <= j < values@.len() implies ((#[trigger] out@[i]
            < #[trigger] out@[j]) <==> values@[i] < values@[j]) by {
            assert(values@.contains(values@[i]));
            assert(values@.contains(values@[j]));
        }
        assert forall|i: int| 0 <= i < values@.len() implies #[trigger] out@[i] < w by {
            assert(values@.contains(values@[i]));
        }
    }
    (out, w)
}

} // verus!
