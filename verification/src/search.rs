use vstd::prelude::*;

verus! {

pub trait BinarySearch<T> {
    /// Which sequences the searches take: sorted in non-decreasing order.
    spec fn search_req(&self) -> bool;

    /// Everything `lower_bound` promises of its result.
    spec fn lower_bound_post(&self, x: &T, r: usize) -> bool;

    /// Everything `upper_bound` promises of its result.
    spec fn upper_bound_post(&self, x: &T, r: usize) -> bool;

    /// The first position whose item is at least `x`.
    fn lower_bound(&self, x: &T) -> (r: usize)
        requires
            self.search_req(),
        ensures
            self.lower_bound_post(x, r),
    ;

    /// The first position whose item is greater than `x`.
    fn upper_bound(&self, x: &T) -> (r: usize)
        requires
            self.search_req(),
        ensures
            self.upper_bound_post(x, r),
    ;
}

fn lower_bound_rec(me: &[usize], x: usize, left: usize, right: usize) -> (r: usize)
    requires
        forall|a: int, b: int| 0 <= a < b < me@.len() ==> me@[a] <= me@[b],
        left <= right <= me@.len(),
        forall|i: int| 0 <= i < left ==> me@[i] < x,
        forall|i: int| right <= i < me@.len() ==> me@[i] >= x,
    ensures
        r <= me@.len(),
        forall|i: int| 0 <= i < r ==> me@[i] < x,
        forall|i: int| r <= i < me@.len() ==> me@[i] >= x,
    decreases right - left,
{
    if left == right {
        left
    } else {
        let mid = left + (right - left) / 2;
        if me[mid] < x {
            lower_bound_rec(me, x, mid + 1, right)
        } else {
            lower_bound_rec(me, x, left, mid)
        }
    }
}

fn upper_bound_rec(me: &[usize], x: usize, left: usize, right: usize) -> (r: usize)
    requires
        forall|a: int, b: int| 0 <= a < b < me@.len() ==> me@[a] <= me@[b],
        left <= right <= me@.len(),
        forall|i: int| 0 <= i < left ==> me@[i] <= x,
        forall|i: int| right <= i < me@.len() ==> me@[i] > x,
    ensures
        r <= me@.len(),
        forall|i: int| 0 <= i < r ==> me@[i] <= x,
        forall|i: int| r <= i < me@.len() ==> me@[i] > x,
    decreases right - left,
{
    if left == right {
        left
    } else {
        let mid = left + (right - left) / 2;
        if me[mid] <= x {
            upper_bound_rec(me, x, mid + 1, right)
        } else {
            upper_bound_rec(me, x, left, mid)
        }
    }
}

impl BinarySearch<usize> for [usize] {
    open spec fn search_req(&self) -> bool {
        forall|a: int, b: int| 0 <= a < b < self@.len() ==> self@[a] <= self@[b]
    }

    /// Positions below the result hold smaller items; from the result on,
    /// the items are at least `x`.
    open spec fn lower_bound_post(&self, x: &usize, r: usize) -> bool {
        &&& r <= self@.len()
        &&& forall|i: int| 0 <= i < r ==> self@[i] < *x
        &&& forall|i: int| r <= i < self@.len() ==> self@[i] >= *x
    }

    /// Positions below the result hold items no greater than `x`; from the
    /// result on, the items are greater.
    open spec fn upper_bound_post(&self, x: &usize, r: usize) -> bool {
        &&& r <= self@.len()
        &&& forall|i: int| 0 <= i < r ==> self@[i] <= *x
        &&& forall|i: int| r <= i < self@.len() ==> self@[i] > *x
    }

    fn lower_bound(&self, x: &usize) -> (r: usize) {
        lower_bound_rec(self, *x, 0, self.len())
    }

    fn upper_bound(&self, x: &usize) -> (r: usize) {
        upper_bound_rec(self, *x, 0, self.len())
    }
}

/// Return pair of
/// ( maximum number i in F(i) = false,
///   minimum number j in F(j) = true)
/// for a condition that fails at `ng_min` and holds at `ok_max`: the pair
/// brackets the boundary, one step apart, between the two given ends
/// (whichever of them is smaller).
pub fn bound<F: Fn(isize) -> bool>(ng_min: isize, ok_max: isize, condition: F) -> (r: (
    isize,
    isize,
))
    requires
        -(isize::MAX / 4) <= ng_min <= isize::MAX / 4,
        -(isize::MAX / 4) <= ok_max <= isize::MAX / 4,
        forall|i: isize|
            vstd::math::min(ng_min as int, ok_max as int) <= i <= vstd::math::max(
                ng_min as int,
                ok_max as int,
            ) ==> call_requires(condition, (i,)),
        forall|b: bool| call_ensures(condition, (ok_max,), b) ==> b,
        forall|b: bool| call_ensures(condition, (ng_min,), b) ==> !b,
    ensures
        call_ensures(condition, (r.0,), false),
        call_ensures(condition, (r.1,), true),
        vstd::math::min(ng_min as int, ok_max as int) <= r.0 <= vstd::math::max(
            ng_min as int,
            ok_max as int,
        ),
        vstd::math::min(ng_min as int, ok_max as int) <= r.1 <= vstd::math::max(
            ng_min as int,
            ok_max as int,
        ),
        vstd::math::abs(r.1 - r.0) == 1,
{
    let c_ok = condition(ok_max);
    let c_ng = condition(ng_min);
    proof {
        assert(c_ok);
        assert(!c_ng);
    }
    let ghost lo = vstd::math::min(ng_min as int, ok_max as int);
    let ghost hi = vstd::math::max(ng_min as int, ok_max as int);
    let mut ng = ng_min;
    let mut ok = ok_max;
    loop
        invariant_except_break
            ng != ok,
            lo <= ng <= hi,
            lo <= ok <= hi,
            lo == vstd::math::min(ng_min as int, ok_max as int),
            hi == vstd::math::max(ng_min as int, ok_max as int),
            -(isize::MAX / 4) <= lo,
            hi <= isize::MAX / 4,
            forall|i: isize| lo <= i <= hi ==> call_requires(condition, (i,)),
            call_ensures(condition, (ng,), false),
            call_ensures(condition, (ok,), true),
        ensures
            call_ensures(condition, (ng,), false),
            call_ensures(condition, (ok,), true),
            lo <= ng <= hi,
            lo <= ok <= hi,
            vstd::math::abs(ok - ng) == 1,
        decreases vstd::math::abs(ok - ng),
    {
        let diff = if ok >= ng {
            ok - ng
        } else {
            ng - ok
        };
        if diff <= 1 {
            break ;
        }
        let t = ng + ok;
        let mid = if t >= 0 {
            t / 2
        } else {
            -((-t) / 2)
        };
        proof {
            let m = vstd::math::min(ng as int, ok as int);
            let mx = vstd::math::max(ng as int, ok as int);
            if t >= 0 {
                assert(m < mid < mx) by (nonlinear_arith)
                    requires
                        mid == (ng + ok) / 2,
                        t == ng + ok,
                        t >= 0,
                        m == vstd::math::min(ng as int, ok as int),
                        mx == vstd::math::max(ng as int, ok as int),
                        mx - m >= 2,
                ;
            } else {
                assert(m < mid < mx) by (nonlinear_arith)
                    requires
                        mid == 0 - ((0 - (ng + ok)) / 2),
                        t == ng + ok,
                        t < 0,
                        m == vstd::math::min(ng as int, ok as int),
                        mx == vstd::math::max(ng as int, ok as int),
                        mx - m >= 2,
                ;
            }
        }
        if condition(mid) {
            ok = mid;
        } else {
            ng = mid;
        }
    }
    (ng, ok)
}

/// Return pair of
/// ( maximum number i in F(i) = false,
///   minimum number j in F(j) = true)
/// for a condition that fails at `ng_min`, holds at `ok_max`, with
/// `ng_min <= ok_max`.
pub fn bound_usize<F: Fn(usize) -> bool>(ng_min: usize, ok_max: usize, condition: F) -> (r: (
    usize,
    usize,
))
    requires
        ng_min <= ok_max,
        ok_max <= usize::MAX / 2,
        forall|i: usize| ng_min <= i <= ok_max ==> call_requires(condition, (i,)),
        forall|b: bool| call_ensures(condition, (ok_max,), b) ==> b,
        forall|b: bool| call_ensures(condition, (ng_min,), b) ==> !b,
    ensures
        call_ensures(condition, (r.0,), false),
        call_ensures(condition, (r.1,), true),
        ng_min <= r.0,
        r.1 <= ok_max,
        r.1 == r.0 + 1,
{
    let c_ok = condition(ok_max);
    let c_ng = condition(ng_min);
    proof {
        assert(c_ok);
        assert(!c_ng);
    }
    let mut ng = ng_min;
    let mut ok = ok_max;
    while ok - ng > 1
        invariant
            ng_min <= ng < ok <= ok_max,
            ok_max <= usize::MAX / 2,
            forall|i: usize| ng_min <= i <= ok_max ==> call_requires(condition, (i,)),
            call_ensures(condition, (ng,), false),
            call_ensures(condition, (ok,), true),
        decreases ok - ng,
    {
        let mid = (ng + ok) / 2;
        if condition(mid) {
            ok = mid;
        } else {
            ng = mid;
        }
    }
    (ng, ok)
}

} // verus!
