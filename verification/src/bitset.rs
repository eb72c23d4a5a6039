use vstd::prelude::*;

verus! {

/// Whether bit `digit` of `n` is set.
pub open spec fn bit_on(n: usize, digit: usize) -> bool {
    (n >> digit) & 1 == 1
}

/// A number read as a set of bits.
pub trait Bitset where Self: Sized {
    /// Which bit positions the operations take.
    spec fn digit_ok(&self, digit: usize) -> bool;

    /// What `is_bit_on` returns.
    spec fn is_bit_on_spec(&self, digit: usize) -> bool;

    /// What `toggled_bit` returns.
    spec fn toggled_bit_spec(&self, digit: usize) -> Self;

    /// What `turned_bit_on` returns.
    spec fn turned_bit_on_spec(&self, digit: usize) -> Self;

    /// What `turned_bit_off` returns.
    spec fn turned_bit_off_spec(&self, digit: usize) -> Self;

    /// Whether the given bit is set.
    fn is_bit_on(&self, digit: usize) -> (r: bool)
        requires
            self.digit_ok(digit),
        ensures
            r == self.is_bit_on_spec(digit),
    ;

    /// The lowest `len` bits, least significant first.
    fn to_bit_vec(&self, len: usize) -> (r: Vec<bool>)
        requires
            forall|d: usize| d < len ==> self.digit_ok(d),
        ensures
            r@.len() == len,
            forall|d: int| 0 <= d < len ==> #[trigger] r@[d] == self.is_bit_on_spec(d as usize),
    ;

    /// The number with the given bit flipped.
    fn toggled_bit(&self, digit: usize) -> (r: Self)
        requires
            self.digit_ok(digit),
        ensures
            r == self.toggled_bit_spec(digit),
    ;

    /// The number with the given bit set.
    fn turned_bit_on(&self, digit: usize) -> (r: Self)
        requires
            self.digit_ok(digit),
        ensures
            r == self.turned_bit_on_spec(digit),
    ;

    /// The number with the given bit cleared.
    fn turned_bit_off(&self, digit: usize) -> (r: Self)
        requires
            self.digit_ok(digit),
        ensures
            r == self.turned_bit_off_spec(digit),
    ;
}

impl Bitset for usize {
    open spec fn digit_ok(&self, digit: usize) -> bool {
        digit < usize::BITS
    }

    open spec fn is_bit_on_spec(&self, digit: usize) -> bool {
        bit_on(*self, digit)
    }

    open spec fn toggled_bit_spec(&self, digit: usize) -> usize {
        *self ^ (1usize << digit)
    }

    open spec fn turned_bit_on_spec(&self, digit: usize) -> usize {
        *self | (1usize << digit)
    }

    open spec fn turned_bit_off_spec(&self, digit: usize) -> usize {
        *self & !(1usize << digit)
    }

    fn is_bit_on(&self, digit: usize) -> (r: bool) {
        (*self >> digit) & 1 == 1
    }

    fn to_bit_vec(&self, len: usize) -> (r: Vec<bool>) {
        let mut bits: Vec<bool> = Vec::new();
        let mut d: usize = 0;
        while d < len
            invariant
                bits@.len() == d <= len,
                forall|t: usize| t < len ==> self.digit_ok(t),
                forall|t: int| 0 <= t < d ==> #[trigger] bits@[t] == bit_on(*self, t as usize),
            decreases len - d,
        {
            proof {
                assert(self.digit_ok(d));
            }
            bits.push((*self >> d) & 1 == 1);
            d = d + 1;
        }
        bits
    }

    fn toggled_bit(&self, digit: usize) -> (r: usize) {
        *self ^ (1 << digit)
    }

    fn turned_bit_on(&self, digit: usize) -> (r: usize) {
        *self | (1 << digit)
    }

    fn turned_bit_off(&self, digit: usize) -> (r: usize) {
        *self & !(1 << digit)
    }
}

} // verus!
