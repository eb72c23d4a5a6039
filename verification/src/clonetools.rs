use vstd::prelude::*;

verus! {

pub trait ClonePush<T> where Self: Sized {
    /// Everything `clone_push` promises of its result.
    spec fn clone_push_post(&self, v: T, r: Self) -> bool;

    /// Clone and push (appends an element to the back of a collection).
    fn clone_push(&self, v: T) -> (r: Self)
        ensures
            self.clone_push_post(v, r),
    ;
}

impl<T: Copy> ClonePush<T> for Vec<T> {
    /// The result is the receiver with `v` appended.
    open spec fn clone_push_post(&self, v: T, r: Vec<T>) -> bool {
        r@ == self@.push(v)
    }

    fn clone_push(&self, v: T) -> (r: Vec<T>) {
        let mut new_vec: Vec<T> = Vec::new();
        let mut i: usize = 0;
        while i < self.len()
            invariant
                i <= self@.len(),
                new_vec@ == self@.subrange(0, i as int),
            decreases self@.len() - i,
        {
            new_vec.push(self[i]);
            proof {
                assert(new_vec@ =~= self@.subrange(0, i + 1));
            }
            i = i + 1;
        }
        proof {
            assert(self@.subrange(0, self@.len() as int) =~= self@);
        }
        new_vec.push(v);
        new_vec
    }
}

} // verus!
