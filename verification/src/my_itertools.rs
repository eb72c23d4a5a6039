use vstd::prelude::*;
use vstd::std_specs::cmp::PartialEqSpec;

verus! {

/// `n` copies of one item.
pub open spec fn repeat_item<T>(t: T, n: nat) -> Seq<T>
    decreases n,
{
    if n == 0 {
        Seq::empty()
    } else {
        repeat_item(t, (n - 1) as nat).push(t)
    }
}

/// The items a sequence of runs stands for, in order.
pub open spec fn expand_runs<T>(r: Seq<(T, usize)>) -> Seq<T>
    decreases r.len(),
{
    if r.len() == 0 {
        Seq::empty()
    } else {
        expand_runs(r.drop_last()) + repeat_item(r.last().0, r.last().1 as nat)
    }
}

/// Run Length Encoding
/// Counting same items for compression: each run pairs an item with how often
/// it repeats, expanding back to exactly the input; neighbouring runs hold
/// different items, and no run is empty.
pub fn run_length_encoding<T: Copy + PartialEq>(values: &[T]) -> (r: Vec<(T, usize)>)
    requires
        T::obeys_eq_spec(),
        forall|x: T, y: T| #[trigger] x.eq_spec(&y) <==> x == y,
        values@.len() > 0,
    ensures
        expand_runs(r@) == values@,
        forall|i: int| 0 <= i < r@.len() - 1 ==> (#[trigger] r@[i]).0 != r@[i + 1].0,
        forall|i: int| 0 <= i < r@.len() ==> (#[trigger] r@[i]).1 >= 1,
{
    let mut count: usize = 1;
    let mut acc: Vec<(T, usize)> = Vec::new();
    proof {
        assert(repeat_item(values@[0], 0nat) =~= Seq::<T>::empty());
        assert(repeat_item(values@[0], 1nat) =~= Seq::empty().push(values@[0]));
        assert(expand_runs(Seq::<(T, usize)>::empty()) + repeat_item(values@[0], 1nat)
            =~= values@.subrange(0, 1));
    }
    let mut i: usize = 1;
    while i < values.len()
        invariant
            T::obeys_eq_spec(),
            forall|x: T, y: T| #[trigger] x.eq_spec(&y) <==> x == y,
            1 <= i <= values@.len(),
            1 <= count <= i,
            expand_runs(acc@) + repeat_item(values@[i - 1], count as nat) == values@.subrange(
                0,
                i as int,
            ),
            forall|t: int| 0 <= t < acc@.len() - 1 ==> (#[trigger] acc@[t]).0 != acc@[t + 1].0,
            forall|t: int| 0 <= t < acc@.len() ==> (#[trigger] acc@[t]).1 >= 1,
            acc@.len() > 0 ==> acc@.last().0 != values@[i - 1],
        decreases values@.len() - i,
    {
        let ghost pre = acc@;
        let ghost cnt0 = count as nat;
        if values[i] == values[i - 1] {
            count = count + 1;
            proof {
                assert(values@.subrange(0, i + 1).drop_last() =~= values@.subrange(0, i as int));
                assert(expand_runs(acc@) + repeat_item(values@[i as int], count as nat)
                    =~= values@.subrange(0, i + 1));
            }
        } else {
            acc.push((values[i - 1], count));
            count = 1;
            proof {
                assert(acc@.drop_last() =~= pre);
                assert(expand_runs(acc@) == expand_runs(pre) + repeat_item(
                    values@[i - 1],
                    cnt0,
                ));
                assert(values@.subrange(0, i + 1).drop_last() =~= values@.subrange(0, i as int));
                assert(repeat_item(values@[i as int], 0nat) =~= Seq::<T>::empty());
                assert(repeat_item(values@[i as int], 1nat) =~= Seq::empty().push(
                    values@[i as int],
                ));
                assert(expand_runs(acc@) + repeat_item(values@[i as int], 1nat) =~= values@.subrange(
                    0,
                    i + 1,
                ));
            }
        }
        i = i + 1;
    }
    let ghost pre_final = acc@;
    acc.push((values[values.len() - 1], count));
    proof {
        assert(acc@.drop_last() =~= pre_final);
        assert(expand_runs(acc@) == expand_runs(pre_final) + repeat_item(
            values@[values@.len() - 1],
            count as nat,
        ));
        assert(values@.subrange(0, values@.len() as int) =~= values@);
    }
    acc
}

} // verus!
