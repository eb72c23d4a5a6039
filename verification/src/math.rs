use vstd::prelude::*;

verus! {

/// `n` has no divisor strictly between 1 and itself.
pub open spec fn is_prime_spec(n: nat) -> bool {
    &&& n >= 2
    &&& forall|d: nat| 2 <= d < n ==> #[trigger] (n % d) != 0
}

/// Divisibility carries down a chain: if `m` divides `n` and `d` divides `m`,
/// then `d` divides `n`.
proof fn lemma_divides_transitive(n: int, m: int, d: int)
    requires
        n >= 0,
        m >= 1,
        d >= 1,
        n % m == 0,
        m % d == 0,
    ensures
        n % d == 0,
{
    let a = n / m;
    let b = m / d;
    vstd::arithmetic::div_mod::lemma_fundamental_div_mod(n, m);
    vstd::arithmetic::div_mod::lemma_fundamental_div_mod(m, d);
    assert(n == (a * b) * d) by (nonlinear_arith)
        requires
            n == m * a,
            m == d * b,
    ;
    vstd::arithmetic::div_mod::lemma_mod_multiples_basic(a * b, d);
}

/// The smallest divisor (at least 2) of a number is prime.
proof fn lemma_smallest_divisor_is_prime(n: nat, f: nat)
    requires
        2 <= f <= n,
        n % f == 0,
        forall|d: nat| 2 <= d < f ==> #[trigger] (n % d) != 0,
    ensures
        is_prime_spec(f),
{
    assert forall|d: nat| 2 <= d < f implies #[trigger] (f % d) != 0 by {
        if f % d == 0 {
            lemma_divides_transitive(n as int, f as int, d as int);
        }
    }
}

/// Returns the least prime factor of `n`; `None` exactly when `n` is 0 or 1.
/// When `Some(f)` comes back, `f` is a prime divisor of `n` and nothing
/// between 2 and `f` divides `n`.
pub fn smallest_prime_factor(n: usize) -> (r: Option<usize>)
    ensures
        r is None <==> n < 2,
        r matches Some(f) ==> {
            &&& 2 <= f <= n
            &&& n as nat % f as nat == 0
            &&& forall|d: nat| 2 <= d < f ==> #[trigger] (n as nat % d) != 0
            &&& is_prime_spec(f as nat)
        },
{
    if n < 2 {
        return None;
    }
    if n % 2 == 0 {
        return Some(2);
    }
    let mut odd: usize = 3;
    while n / odd >= odd
        invariant
            3 <= odd,
            odd % 2 == 1,
            odd <= n,
            n >= 3,
            n % 2 != 0,
            forall|d: nat| 2 <= d < odd ==> #[trigger] (n as nat % d) != 0,
        decreases n - odd,
    {
        if n % odd == 0 {
            proof {
                lemma_smallest_divisor_is_prime(n as nat, odd as nat);
            }
            return Some(odd);
        }
        proof {
            assert(n as nat % (odd + 1) as nat != 0) by {
                if n as nat % (odd + 1) as nat == 0 {
                    lemma_divides_transitive(n as int, odd as int + 1, 2);
                }
            }
            vstd::arithmetic::div_mod::lemma_fundamental_div_mod(n as int, odd as int);
            assert(odd + 2 <= n) by (nonlinear_arith)
                requires
                    odd >= 3,
                    n >= 3,
                    n / odd >= odd,
                    n == odd * (n / odd) + n % odd,
                    0 <= n % odd < odd,
            ;
        }
        odd = odd + 2;
    }
    proof {
        assert forall|d: nat| 2 <= d < n implies #[trigger] (n as nat % d) != 0 by {
            if n as nat % d == 0 {
                let q = n as nat / d;
                vstd::arithmetic::div_mod::lemma_fundamental_div_mod(n as int, d as int);
                assert(n == d * q);
                assert(q >= 2 && n as nat % q == 0 && (d < odd || q < odd)) by (nonlinear_arith)
                    requires
                        n == d * q,
                        2 <= d < n,
                        n / odd < odd,
                        n >= 3,
                        odd >= 3,
                        q == n as nat / d,
                ;
            }
        }
        lemma_smallest_divisor_is_prime(n as nat, n as nat);
    }
    Some(n)
}

/// The product of all items of `s`.
pub open spec fn product_spec(s: Seq<usize>) -> int
    decreases s.len(),
{
    if s.len() == 0 {
        1
    } else {
        product_spec(s.drop_last()) * s.last()
    }
}

/// The prime factorisation of `n`, in non-decreasing order; empty for 0
/// and 1.
pub fn prime_factors(n: usize) -> (r: Vec<usize>)
    ensures
        n == 0 ==> r@.len() == 0,
        n >= 1 ==> product_spec(r@) == n,
        forall|i: int| 0 <= i < r@.len() ==> is_prime_spec(#[trigger] r@[i] as nat),
        forall|i: int| 0 <= i < r@.len() - 1 ==> #[trigger] r@[i] <= r@[i + 1],
{
    let mut factors: Vec<usize> = Vec::new();
    let mut m = n;
    while m >= 2
        invariant
            n == 0 ==> m == 0 && factors@.len() == 0,
            n >= 1 ==> m >= 1 && product_spec(factors@) * m == n,
            forall|i: int| 0 <= i < factors@.len() ==> is_prime_spec(#[trigger] factors@[i] as nat),
            forall|i: int| 0 <= i < factors@.len() - 1 ==> #[trigger] factors@[i] <= factors@[i + 1],
            factors@.len() > 0 ==> forall|d: nat|
                2 <= d < factors@.last() ==> #[trigger] (m as nat % d) != 0,
        decreases m,
    {
        let f = smallest_prime_factor(m).unwrap();
        let ghost pre = factors@;
        let ghost m_pre = m;
        factors.push(f);
        m = m / f;
        proof {
            assert(pre.push(f).drop_last() =~= pre);
            assert(product_spec(factors@) == product_spec(pre) * f);
            vstd::arithmetic::div_mod::lemma_fundamental_div_mod(m_pre as int, f as int);
            assert(product_spec(pre) * f * m == product_spec(pre) * m_pre) by (nonlinear_arith)
                requires
                    m_pre == f * m,
            ;
            if pre.len() > 0 {
                assert(f >= pre.last());
            }
            assert(m >= 1) by (nonlinear_arith)
                requires
                    m_pre == f * m + m_pre % f,
                    m_pre % f == 0,
                    2 <= f <= m_pre,
            ;
            assert forall|d: nat| 2 <= d < f implies #[trigger] (m as nat % d) != 0 by {
                if m as nat % d == 0 {
                    vstd::arithmetic::div_mod::lemma_mod_multiples_basic(f as int, m as int);
                    lemma_divides_transitive(m_pre as int, m as int, d as int);
                }
            }
            vstd::arithmetic::div_mod::lemma_div_is_strictly_smaller(m_pre as int, f as int);
        }
    }
    factors
}

/// `k` has a divisor `d` with `2 <= d < bound` whose cofactor is at least 2.
spec fn has_small_divisor(k: nat, bound: nat) -> bool {
    exists|d: nat| 2 <= d < bound && #[trigger] (k % d) == 0 && k >= 2 * d
}

/// All primes up to and including `max_n`, in increasing order.
pub fn sieve_of_eratosthenes(max_n: usize) -> (r: Vec<usize>)
    requires
        max_n <= usize::MAX / 2 - 1,
    ensures
        forall|i: int|
            0 <= i < r@.len() ==> is_prime_spec(#[trigger] r@[i] as nat) && r@[i] <= max_n,
        forall|i: int, j: int| 0 <= i < j < r@.len() ==> r@[i] < r@[j],
        forall|p: int|
            2 <= p <= max_n && #[trigger] is_prime_spec(p as nat) ==> r@.contains(p as usize),
{
    let len = max_n + 1;
    let mut sieve: Vec<bool> = Vec::new();
    let mut j: usize = 0;
    while j < len
        invariant
            sieve@.len() == j <= len,
            forall|k: int| 0 <= k < j ==> sieve@[k],
        decreases len - j,
    {
        sieve.push(true);
        j = j + 1;
    }
    let mut prime_numbers: Vec<usize> = Vec::new();
    let mut i: usize = 2;
    while i < len
        invariant
            len == max_n + 1,
            len <= usize::MAX / 2,
            sieve@.len() == len,
            2 <= i,
            i <= len || i == 2,
            forall|k: nat| k < len ==> sieve@[k as int] == !has_small_divisor(k, i as nat),
            forall|t: int|
                0 <= t < prime_numbers@.len() ==> is_prime_spec(#[trigger] prime_numbers@[t] as nat)
                    && prime_numbers@[t] < i,
            forall|t: int, u: int|
                0 <= t < u < prime_numbers@.len() ==> prime_numbers@[t] < prime_numbers@[u],
            forall|p: int|
                2 <= p < i && #[trigger] is_prime_spec(p as nat) ==> prime_numbers@.contains(
                    p as usize,
                ),
        decreases len - i,
    {
        let ghost pn_pre = prime_numbers@;
        if sieve[i] {
            proof {
                assert forall|d: nat| 2 <= d < i implies #[trigger] ((i as nat) % d) != 0 by {
                    if (i as nat) % d == 0 {
                        vstd::arithmetic::div_mod::lemma_fundamental_div_mod(i as int, d as int);
                        assert(i >= 2 * d) by (nonlinear_arith)
                            requires
                                i as int == d * ((i as int) / (d as int)),
                                2 <= d < i,
                        ;
                        assert(has_small_divisor(i as nat, i as nat));
                    }
                }
                assert(is_prime_spec(i as nat));
            }
            prime_numbers.push(i);
        } else {
            proof {
                assert(has_small_divisor(i as nat, i as nat));
                let d = choose|d: nat| 2 <= d < i && #[trigger] ((i as nat) % d) == 0 && i >= 2
                    * d;
                assert(!is_prime_spec(i as nat));
            }
        }
        let ghost pre = sieve@;
        let mut ind = 2 * i;
        proof {
            vstd::arithmetic::div_mod::lemma_mod_multiples_basic(2, i as int);
        }
        while ind < len
            invariant
                2 <= i < len,
                len <= usize::MAX / 2,
                sieve@.len() == len,
                2 * i <= ind,
                ind % i == 0,
                pre.len() == len,
                forall|k: int|
                    0 <= k < len ==> #[trigger] sieve@[k] == (pre[k] && !(k % (i as int) == 0 && 2
                        * i <= k < ind)),
            decreases len + i - ind,
        {
            sieve[ind] = false;
            proof {
                vstd::arithmetic::div_mod::lemma_fundamental_div_mod(ind as int, i as int);
                assert((ind + i) as int == (ind as int / i as int + 1) * i) by (nonlinear_arith)
                    requires
                        ind as int == i * (ind as int / i as int),
                ;
                vstd::arithmetic::div_mod::lemma_mod_multiples_basic(
                    ind as int / i as int + 1,
                    i as int,
                );
                assert forall|k: int|
                    ind < k < ind + i implies #[trigger] (k % (i as int)) != 0 by {
                    if k % (i as int) == 0 {
                        vstd::arithmetic::div_mod::lemma_fundamental_div_mod(k, i as int);
                        vstd::arithmetic::div_mod::lemma_fundamental_div_mod(ind as int, i as int);
                        assert(false) by (nonlinear_arith)
                            requires
                                k == (i as int) * (k / (i as int)),
                                ind as int == (i as int) * ((ind as int) / (i as int)),
                                ind < k < ind + i,
                                i >= 2,
                        ;
                    }
                }
            }
            ind = ind + i;
        }
        proof {
            assert forall|k: nat| k < len implies sieve@[k as int] == !has_small_divisor(
                k,
                (i + 1) as nat,
            ) by {
                if has_small_divisor(k, (i + 1) as nat) {
                    let d = choose|d: nat| 2 <= d < i + 1 && #[trigger] (k % d) == 0 && k >= 2
                        * d;
                    if d < i {
                        assert(has_small_divisor(k, i as nat));
                        assert(!pre[k as int]);
                    } else {
                        assert(d == i as nat);
                        assert((k as int) % (i as int) == 0);
                        assert(2 * i <= k && (k as int) < ind);
                        assert(!sieve@[k as int]);
                    }
                } else {
                    assert(!has_small_divisor(k, i as nat)) by {
                        if has_small_divisor(k, i as nat) {
                            let d = choose|d: nat| 2 <= d < i && #[trigger] (k % d) == 0 && k
                                >= 2 * d;
                            assert(2 <= d < i + 1 && k % d == 0 && k >= 2 * d);
                        }
                    }
                    assert(pre[k as int]);
                    assert(!(k % (i as nat) == 0 && k >= 2 * i)) by {
                        if k % (i as nat) == 0 && k >= 2 * i {
                            assert(2 <= (i as nat) < i + 1 && k % (i as nat) == 0 && k >= 2 * (
                            i as nat));
                        }
                    }
                }
            }
            assert forall|p: int|
                2 <= p < i + 1 && #[trigger] is_prime_spec(p as nat) implies prime_numbers@.contains(
                p as usize,
            ) by {
                if p < i {
                    assert(pn_pre.contains(p as usize));
                    let t = choose|t: int| 0 <= t < pn_pre.len() && pn_pre[t] == p as usize;
                    assert(prime_numbers@[t] == p as usize);
                } else {
                    assert(prime_numbers@.last() == i as usize);
                }
            }
        }
        i = i + 1;
    }
    prime_numbers
}

/// The absolute difference of two values.
pub trait AbsDiff: Copy {
    /// The value `abs_diff` must return.
    spec fn abs_diff_spec(self, other: Self) -> Self;

    /// Calc absolute difference
    fn abs_diff(self, other: Self) -> (r: Self)
        ensures
            r == self.abs_diff_spec(other),
    ;
}

impl AbsDiff for usize {
    open spec fn abs_diff_spec(self, other: usize) -> usize {
        if self >= other {
            (self - other) as usize
        } else {
            (other - self) as usize
        }
    }

    fn abs_diff(self, other: usize) -> (r: usize) {
        if self < other {
            other - self
        } else {
            self - other
        }
    }
}

/// Euclid's greatest common divisor.
pub open spec fn gcd_spec(a: nat, b: nat) -> nat
    decreases b,
{
    if b == 0 {
        a
    } else {
        gcd_spec(b, a % b)
    }
}

/// `gcd_spec` really computes the greatest common divisor: it divides both
/// arguments, and every common divisor of the arguments divides it.
pub proof fn lemma_gcd_properties(a: nat, b: nat)
    ensures
        a + b > 0 ==> gcd_spec(a, b) >= 1,
        gcd_spec(a, b) >= 1 ==> a % gcd_spec(a, b) == 0 && b % gcd_spec(a, b) == 0,
        forall|c: nat|
            1 <= c && a % c == 0 && b % c == 0 ==> #[trigger] (gcd_spec(a, b) % c) == 0,
    decreases b,
{
    let g = gcd_spec(a, b);
    if b == 0 {
        if a >= 1 {
            vstd::arithmetic::div_mod::lemma_mod_self_0(a as int);
            vstd::arithmetic::div_mod::lemma_small_mod(0nat, a);
        }
        assert forall|c: nat| 1 <= c && a % c == 0 && b % c == 0 implies #[trigger] (g % c)
            == 0 by {
        }
    } else {
        lemma_gcd_properties(b, a % b);
        vstd::arithmetic::div_mod::lemma_fundamental_div_mod(a as int, b as int);
        if g >= 1 {
            // g divides b and a % b, so it divides a = b * (a / b) + a % b.
            let q = a as int / b as int;
            let b1 = b as int / g as int;
            let r1 = (a % b) as int / g as int;
            vstd::arithmetic::div_mod::lemma_fundamental_div_mod(b as int, g as int);
            vstd::arithmetic::div_mod::lemma_fundamental_div_mod((a % b) as int, g as int);
            assert(a as int == (b1 * q + r1) * g) by (nonlinear_arith)
                requires
                    a as int == b as int * q + (a % b) as int,
                    b as int == g as int * b1,
                    (a % b) as int == g as int * r1,
            ;
            vstd::arithmetic::div_mod::lemma_mod_multiples_basic(b1 * q + r1, g as int);
        }
        assert forall|c: nat| 1 <= c && a % c == 0 && b % c == 0 implies #[trigger] (g % c)
            == 0 by {
            // c divides a and b, so it divides a % b = a - b * (a / b).
            let q = a as int / b as int;
            let a1 = a as int / c as int;
            let b1 = b as int / c as int;
            vstd::arithmetic::div_mod::lemma_fundamental_div_mod(a as int, c as int);
            vstd::arithmetic::div_mod::lemma_fundamental_div_mod(b as int, c as int);
            assert((a % b) as int == (a1 - b1 * q) * c) by (nonlinear_arith)
                requires
                    a as int == b as int * q + (a % b) as int,
                    a as int == c as int * a1,
                    b as int == c as int * b1,
            ;
            vstd::arithmetic::div_mod::lemma_mod_multiples_basic(a1 - b1 * q, c as int);
            assert((a % b) % c == 0);
        }
    }
}

/// The greatest common divisor.
pub trait Gcd: Copy {
    /// The value `gcd` must return.
    spec fn gcd_of(self, other: Self) -> Self;

    /// Calc GCD (Greatest Common Divisor)
    fn gcd(self, other: Self) -> (r: Self)
        ensures
            r == self.gcd_of(other),
    ;
}

fn gcd_rec(a: usize, b: usize) -> (r: usize)
    ensures
        r == gcd_spec(a as nat, b as nat),
    decreases b,
{
    if b == 0 {
        a
    } else {
        gcd_rec(b, a % b)
    }
}

impl Gcd for usize {
    open spec fn gcd_of(self, other: usize) -> usize {
        gcd_spec(self as nat, other as nat) as usize
    }

    fn gcd(self, other: usize) -> (r: usize) {
        proof {
            lemma_gcd_le(self as nat, other as nat);
        }
        gcd_rec(self, other)
    }
}

/// The greatest common divisor never exceeds a positive first argument, so it
/// always fits the arguments' type.
proof fn lemma_gcd_le(a: nat, b: nat)
    ensures
        gcd_spec(a, b) <= a + b,
        b > 0 ==> gcd_spec(a, b) <= b,
    decreases b,
{
    if b > 0 {
        lemma_gcd_le(b, a % b);
        vstd::arithmetic::div_mod::lemma_mod_bound(a as int, b as int);
    }
}

/// What modular exponentiation returns: `b` to the power `e`, reduced modulo
/// `m` — except that an exponent of 0 yields a plain 1, even modulo 1.
pub open spec fn mod_pow_spec(b: nat, e: nat, m: nat) -> nat {
    if e == 0 {
        1
    } else {
        (vstd::arithmetic::power::pow(b as int, e) % (m as int)) as nat
    }
}

/// One square-and-multiply step keeps the running congruence.
proof fn lemma_mod_pow_step(acc: int, cur: int, e: nat, m: int)
    requires
        m >= 1,
        e > 0,
    ensures
        e % 2 == 1 ==> (((acc * cur) % m) * vstd::arithmetic::power::pow((cur * cur) % m, e / 2))
            % m == (acc * vstd::arithmetic::power::pow(cur, e)) % m,
        e % 2 == 0 ==> (acc * vstd::arithmetic::power::pow((cur * cur) % m, e / 2)) % m == (acc
            * vstd::arithmetic::power::pow(cur, e)) % m,
{
    let k = e / 2;
    let sq = cur * cur;
    let p1 = vstd::arithmetic::power::pow(sq % m, k);
    let p2 = vstd::arithmetic::power::pow(sq, k);
    let pc = vstd::arithmetic::power::pow(cur, e);
    vstd::arithmetic::power::lemma_square_is_pow2(cur);
    vstd::arithmetic::power::lemma_pow_multiplies(cur, 2, k);
    assert(vstd::arithmetic::power::pow(cur, 2 * k) == p2);
    vstd::arithmetic::power::lemma_pow_mod_noop(sq, k, m);
    assert(p1 % m == p2 % m);
    if e % 2 == 0 {
        assert(2 * k == e);
        assert((acc * p1) % m == (acc * p2) % m) by {
            vstd::arithmetic::div_mod::lemma_mul_mod_noop_general(acc, p1, m);
            vstd::arithmetic::div_mod::lemma_mul_mod_noop_general(acc, p2, m);
            assert((acc * p1) % m == (acc * (p1 % m)) % m);
            assert((acc * p2) % m == (acc * (p2 % m)) % m);
        }
    } else {
        assert(e == 2 * k + 1);
        vstd::arithmetic::power::lemma_pow1(cur);
        vstd::arithmetic::power::lemma_pow_adds(cur, 1, 2 * k);
        assert(pc == cur * vstd::arithmetic::power::pow(cur, 2 * k));
        assert((((acc * cur) % m) * p1) % m == ((acc * cur) * p1) % m) by {
            vstd::arithmetic::div_mod::lemma_mul_mod_noop_general(acc * cur, p1, m);
        }
        assert(((acc * cur) * p1) % m == ((acc * cur) * p2) % m) by {
            vstd::arithmetic::div_mod::lemma_mul_mod_noop_general(acc * cur, p1, m);
            vstd::arithmetic::div_mod::lemma_mul_mod_noop_general(acc * cur, p2, m);
        }
        assert((acc * cur) * p2 == acc * pc) by (nonlinear_arith)
            requires
                pc == cur * p2,
        ;
    }
}

/// Modular exponentiation.
pub trait ModPow: Sized {
    /// When `mod_pow` may be called.
    spec fn mod_pow_req(self, exp: Self, m: Self) -> bool;

    /// The value `mod_pow` must return.
    spec fn mod_pow_of(self, exp: Self, m: Self) -> Self;

    /// Returns Modular Exponentiation
    fn mod_pow(self, exp: Self, m: Self) -> (r: Self)
        requires
            self.mod_pow_req(exp, m),
        ensures
            r == self.mod_pow_of(exp, m),
    ;
}

impl ModPow for usize {
    open spec fn mod_pow_req(self, exp: usize, m: usize) -> bool {
        1 <= m <= 0xffff_ffff
    }

    open spec fn mod_pow_of(self, exp: usize, m: usize) -> usize {
        mod_pow_spec(self as nat, exp as nat, m as nat) as usize
    }

    fn mod_pow(self, exp: usize, m: usize) -> (r: usize) {
        let ghost b0 = self as int;
        let ghost e0 = exp as nat;
        let mut acc: usize = 1;
        let mut cur: usize = self % m;
        let mut e: usize = exp;
        proof {
            vstd::arithmetic::power::lemma_pow_mod_noop(b0, e0, m as int);
        }
        while e > 0
            invariant
                1 <= m <= 0xffff_ffff,
                cur < m,
                acc == 1 || acc < m,
                exp == 0 ==> acc == 1 && e == 0,
                e == 0 ==> exp == 0 || acc < m,
                (acc as int * vstd::arithmetic::power::pow(cur as int, e as nat)) % (m as int)
                    == vstd::arithmetic::power::pow(b0, e0) % (m as int),
            decreases e,
        {
            proof {
                lemma_mod_pow_step(acc as int, cur as int, e as nat, m as int);
                assert(acc * cur < 0xffff_ffff_ffff_ffff && cur * cur
                    < 0xffff_ffff_ffff_ffff) by (nonlinear_arith)
                    requires
                        acc <= 0xffff_fffe || acc == 1,
                        cur <= 0xffff_fffe,
                ;
            }
            if e % 2 == 1 {
                acc = ((acc as u64 * cur as u64) % m as u64) as usize;
            }
            cur = ((cur as u64 * cur as u64) % m as u64) as usize;
            e = e / 2;
        }
        proof {
            vstd::arithmetic::power::lemma_pow0(cur as int);
            if exp > 0 {
                vstd::arithmetic::div_mod::lemma_small_mod(acc as nat, m as nat);
            }
        }
        acc
    }
}

/// The characters of `n` written in decimal.
pub open spec fn dec_str(n: nat) -> Seq<char>
    decreases n,
{
    if n < 10 {
        seq![dec_digit(n)]
    } else {
        dec_str(n / 10).push(dec_digit(n % 10))
    }
}

/// The character for one decimal digit.
pub open spec fn dec_digit(d: nat) -> char {
    if d == 0 {
        '0'
    } else if d == 1 {
        '1'
    } else if d == 2 {
        '2'
    } else if d == 3 {
        '3'
    } else if d == 4 {
        '4'
    } else if d == 5 {
        '5'
    } else if d == 6 {
        '6'
    } else if d == 7 {
        '7'
    } else if d == 8 {
        '8'
    } else {
        '9'
    }
}

/// Relies on `format!` and std's `Display` for `usize`, which writes the
/// number in decimal with no padding or sign.
#[verifier::external_body]
fn msg_not_prime(p: usize) -> (r: String)
    ensures
        r@ == "p: "@ + dec_str(p as nat) + " is not prime"@,
{
    format!("p: {} is not prime", p)
}

/// Relies on `format!` and std's `Display` for `usize`, which writes the
/// numbers in decimal with no padding or sign.
#[verifier::external_body]
fn msg_not_relatively_prime(p: usize, divisor: usize) -> (r: String)
    ensures
        r@ == "p: "@ + dec_str(p as nat) + " and divisor: "@ + dec_str(divisor as nat)
            + " are not relatively prime"@,
{
    format!("p: {} and divisor: {} are not relatively prime", p, divisor)
}

/// Modular division by a multiplicative inverse taken from Fermat's little
/// theorem: `a^(p - 1) == 1 (mod p)`, so `a^(p - 2) == a^(-1) (mod p)` when
/// `p` is prime and `a` is no multiple of it.
pub trait ModDiv: Sized {
    /// When `mod_div` may be called.
    spec fn mod_div_req(self, divisor: Self, p: Self) -> bool;

    /// The value `mod_div` must return.
    spec fn mod_div_of(self, divisor: Self, p: Self) -> Self;

    /// When `checked_mod_div` may be called.
    spec fn checked_mod_div_req(self, divisor: Self, p: Self) -> bool;

    /// Everything `checked_mod_div` must guarantee: which inputs give which
    /// error, and what a successful division returns.
    spec fn checked_mod_div_post(self, divisor: Self, p: Self, r: Result<Self, String>) -> bool;

    /// Multiplies by the inverse element calculated by Fermat's little
    /// theorem.  `p` must be prime, and `divisor` and `p` must be relatively
    /// prime; `checked_mod_div` tests those two conditions instead.
    fn mod_div(self, divisor: Self, p: Self) -> (r: Self)
        requires
            self.mod_div_req(divisor, p),
        ensures
            r == self.mod_div_of(divisor, p),
    ;

    /// Checks the conditions of `mod_div` and reports the first one that
    /// fails in the error message.
    fn checked_mod_div(self, divisor: Self, p: Self) -> (r: Result<Self, String>)
        requires
            self.checked_mod_div_req(divisor, p),
        ensures
            self.checked_mod_div_post(divisor, p, r),
    ;
}

impl ModDiv for usize {
    open spec fn mod_div_req(self, divisor: usize, p: usize) -> bool {
        2 <= p <= 0xffff_ffff
    }

    open spec fn mod_div_of(self, divisor: usize, p: usize) -> usize {
        (((self as nat % p as nat) * mod_pow_spec(divisor as nat, (p - 2) as nat, p as nat)) % (
        p as nat)) as usize
    }

    open spec fn checked_mod_div_req(self, divisor: usize, p: usize) -> bool {
        p <= 0xffff_ffff
    }

    open spec fn checked_mod_div_post(
        self,
        divisor: usize,
        p: usize,
        r: Result<usize, String>,
    ) -> bool {
        if !is_prime_spec(p as nat) {
            r matches Err(msg) && msg@ == "p: "@ + dec_str(p as nat) + " is not prime"@
        } else if gcd_spec(p as nat, divisor as nat) != 1 {
            r matches Err(msg) && msg@ == "p: "@ + dec_str(p as nat) + " and divisor: "@ + dec_str(
                divisor as nat,
            ) + " are not relatively prime"@
        } else {
            r matches Ok(v) && v == self.mod_div_of(divisor, p)
        }
    }

    fn mod_div(self, divisor: usize, p: usize) -> (r: usize) {
        let inverse = divisor.mod_pow(p - 2, p);
        proof {
            vstd::arithmetic::div_mod::lemma_mod_bound(self as int, p as int);
            if p > 2 {
                assert(vstd::arithmetic::power::pow(divisor as int, (p - 2) as nat) % (p as int)
                    < p as int);
            }
            assert((self % p) * inverse < 0xffff_ffff_ffff_ffff) by (nonlinear_arith)
                requires
                    self % p < p <= 0xffff_ffff,
                    inverse == 1 || inverse < p,
            ;
        }
        (((self % p) as u64 * inverse as u64) % p as u64) as usize
    }

    fn checked_mod_div(self, divisor: usize, p: usize) -> (r: Result<usize, String>) {
        if !is_prime(p) {
            return Err(msg_not_prime(p));
        }
        proof {
            lemma_gcd_le(p as nat, divisor as nat);
        }
        if p.gcd(divisor) != 1 {
            return Err(msg_not_relatively_prime(p, divisor));
        }
        Ok(self.mod_div(divisor, p))
    }
}

/// All divisors of a number.
pub trait Divisors where Self: Sized {
    /// Everything `divisors` promises of its result.
    spec fn divisors_post(&self, r: Seq<Self>) -> bool;

    /// The divisors, in increasing order.
    fn divisors(&self) -> (r: Vec<Self>)
        ensures
            self.divisors_post(r@),
    ;
}

impl Divisors for usize {
    /// The result lists, in strictly increasing order, exactly the numbers
    /// from 1 through `self` that divide `self`.
    open spec fn divisors_post(&self, r: Seq<usize>) -> bool {
        &&& forall|a: int, b: int| 0 <= a < b < r.len() ==> r[a] < r[b]
        &&& forall|d: usize|
            r.contains(d) <==> (1 <= d <= *self && (*self as nat) % (d as nat) == 0)
    }

    fn divisors(&self) -> (r: Vec<usize>) {
        let n = *self;
        let mut small: Vec<usize> = Vec::new();
        let mut large: Vec<usize> = Vec::new();
        let mut i: usize = 1;
        while n / i >= i
            invariant
                1 <= i,
                n >= 1 || i == 1,
                forall|a: int, b: int| 0 <= a < b < small@.len() ==> small@[a] < small@[b],
                forall|t: int|
                    0 <= t < small@.len() ==> 1 <= #[trigger] small@[t] < i && (n as nat) % (
                    small@[t] as nat) == 0 && small@[t] * small@[t] <= n,
                forall|d: usize|
                    1 <= d < i && (n as nat) % (d as nat) == 0 ==> small@.contains(d),
                large@.len() <= small@.len(),
                forall|t: int|
                    0 <= t < large@.len() ==> #[trigger] large@[t] * small@[t] == n && large@[t]
                        != small@[t],
                large@.len() == small@.len() || (large@.len() + 1 == small@.len()
                    && small@.last() * small@.last() == n),
            decreases n + 1 - i,
        {
            proof {
                vstd::arithmetic::div_mod::lemma_fundamental_div_mod(n as int, i as int);
                assert(i * i <= n && i < usize::MAX) by (nonlinear_arith)
                    requires
                        n / i >= i,
                        i >= 1,
                        n == i * (n / i) + n % i,
                        0 <= n % i < i,
                        n <= usize::MAX,
                ;
            }
            if n % i == 0 {
                let cofactor = n / i;
                let ghost small_pre = small@;
                let ghost large_pre = large@;
                proof {
                    if large@.len() + 1 == small_pre.len() {
                        assert(false) by (nonlinear_arith)
                            requires
                                small_pre.last() * small_pre.last() == n,
                                small_pre.last() < i,
                                i * i <= n,
                                1 <= small_pre.last(),
                        ;
                    }
                }
                small.push(i);
                proof {
                    assert forall|d: usize|
                        1 <= d < i + 1 && (n as nat) % (d as nat) == 0 implies small@.contains(
                        d,
                    ) by {
                        if d < i {
                            assert(small_pre.contains(d));
                            let t = choose|t: int|
                                0 <= t < small_pre.len() && small_pre[t] == d;
                            assert(small@[t] == d);
                        } else {
                            assert(small@.last() == i);
                        }
                    }
                    assert(i * cofactor == n) by (nonlinear_arith)
                        requires
                            n % i == 0,
                            cofactor == n / i,
                            n == i * (n / i) + n % i,
                    ;
                }
                if cofactor != i {
                    large.push(cofactor);
                    proof {
                        let lp = large@.len() - 1;
                        assert(large_pre.len() == small_pre.len());
                        assert(lp == small_pre.len());
                        assert(large@[lp] == cofactor && small@[lp] == i);
                        assert(i * cofactor == n) by (nonlinear_arith)
                            requires
                                n % i == 0,
                                i >= 1,
                                cofactor == n / i,
                                n == i * (n / i) + n % i,
                        ;
                        assert(large@[lp] * small@[lp] == n) by (nonlinear_arith)
                            requires
                                large@[lp] == cofactor,
                                small@[lp] == i,
                                i * cofactor == n,
                        ;
                        assert(small@.len() == small_pre.len() + 1);
                        assert(large@.len() == large_pre.len() + 1);
                        assert forall|t: int|
                            0 <= t < large@.len() implies #[trigger] large@[t] * small@[t] == n
                            && large@[t] != small@[t] by {
                            if t < lp {
                                assert(large@[t] == large_pre[t] && small@[t] == small_pre[t]);
                                assert(large_pre[t] * small_pre[t] == n && large_pre[t]
                                    != small_pre[t]);
                            }
                        }
                    }
                } else {
                    proof {
                        assert(small@.last() * small@.last() == n);
                        assert forall|t: int|
                            0 <= t < large@.len() implies #[trigger] large@[t] * small@[t] == n
                            && large@[t] != small@[t] by {
                            assert(large@[t] == large_pre[t] && small@[t] == small_pre[t]);
                            assert(large_pre[t] * small_pre[t] == n && large_pre[t]
                                != small_pre[t]);
                        }
                    }
                }
            }
            i = i + 1;
        }
        proof {
            vstd::arithmetic::div_mod::lemma_fundamental_div_mod(n as int, i as int);
            assert(i * i > n) by (nonlinear_arith)
                requires
                    n / i < i,
                    i >= 1,
                    n == i * (n / i) + n % i,
                    0 <= n % i < i,
            ;
        }
        let ghost small0 = small@;
        let ghost large0 = large@;
        let mut k = large.len();
        while k > 0
            invariant
                k <= large0.len(),
                large@ == large0,
                small@.len() == small0.len() + (large0.len() - k),
                forall|t: int| 0 <= t < small0.len() ==> #[trigger] small@[t] == small0[t],
                forall|t: int|
                    0 <= t < large0.len() - k ==> #[trigger] small@[small0.len() + t] == large0[
                        large0.len() - 1 - t],
            decreases k,
        {
            k = k - 1;
            small.push(large[k]);
        }
        proof {
            let r = small@;
            let sl = small0.len() as int;
            let ll = large0.len() as int;
            assert forall|t: int|
                0 <= t < ll implies 1 <= #[trigger] large0[t] <= n && (n as nat) % (
            large0[t] as nat) == 0 && large0[t] * large0[t] > n by {
                assert(large0[t] * small0[t] == n);
                assert(large0[t] >= 1 && large0[t] <= n && large0[t] * large0[t] > n)
                    by (nonlinear_arith)
                    requires
                        large0[t] * small0[t] == n,
                        large0[t] != small0[t],
                        1 <= small0[t],
                        small0[t] * small0[t] <= n,
                        n >= 1,
                ;
                vstd::arithmetic::div_mod::lemma_mod_multiples_basic(
                    small0[t] as int,
                    large0[t] as int,
                );
                assert((small0[t] * large0[t]) as int % (large0[t] as int) == 0);
                assert(small0[t] * large0[t] == large0[t] * small0[t]) by (nonlinear_arith);
            }
            assert forall|a: int, b: int| 0 <= a < b < r.len() implies r[a] < r[b] by {
                if a < sl && b >= sl {
                    let tb = ll - 1 - (b - sl);
                    assert(r[sl + (b - sl)] == large0[tb]);
                    assert(r[b] == large0[tb]);
                    assert(small0[a] < large0[tb]) by (nonlinear_arith)
                        requires
                            large0[tb] * small0[tb] == n,
                            large0[tb] != small0[tb],
                            1 <= small0[tb],
                            small0[tb] * small0[tb] <= n,
                            small0[a] * small0[a] <= n,
                            1 <= small0[a],
                            large0[tb] * large0[tb] > n,
                            n >= 1,
                    ;
                } else if a >= sl {
                    let ta = ll - 1 - (a - sl);
                    let tb = ll - 1 - (b - sl);
                    assert(r[sl + (a - sl)] == large0[ta]);
                    assert(r[sl + (b - sl)] == large0[tb]);
                    assert(r[a] == large0[ta] && r[b] == large0[tb]);
                    assert(large0[ta] < large0[tb]) by (nonlinear_arith)
                        requires
                            large0[ta] * small0[ta] == n,
                            large0[tb] * small0[tb] == n,
                            small0[tb] < small0[ta],
                            1 <= small0[tb],
                            1 <= large0[ta],
                    ;
                }
            }
            assert forall|d: usize|
                r.contains(d) <==> (1 <= d <= n && (n as nat) % (d as nat) == 0) by {
                if r.contains(d) {
                    let t = choose|t: int| 0 <= t < r.len() && r[t] == d;
                    if t < sl {
                        assert(d == small0[t]);
                        assert(d <= n) by (nonlinear_arith)
                            requires
                                d * d <= n,
                                d >= 1,
                        ;
                    } else {
                        assert(r[sl + (t - sl)] == large0[ll - 1 - (t - sl)]);
                        assert(d == large0[ll - 1 - (t - sl)]);
                    }
                }
                if 1 <= d <= n && (n as nat) % (d as nat) == 0 {
                    vstd::arithmetic::div_mod::lemma_fundamental_div_mod(n as int, d as int);
                    let e = n / d;
                    if n / d >= d {
                        assert(d < i) by (nonlinear_arith)
                            requires
                                n == d * (n / d),
                                n / d >= d,
                                i * i > n,
                                d >= 1,
                                i >= 1,
                        ;
                        assert(small0.contains(d));
                        let t = choose|t: int| 0 <= t < small0.len() && small0[t] == d;
                        assert(r[t] == d);
                        assert(r.contains(d));
                    } else {
                        assert(e >= 1 && e < i && e * e <= n && e != d && (n as nat) % (e as nat)
                            == 0 && d * e == n) by {
                            assert(e >= 1 && e < i && e * e <= n && e != d && d * e == n)
                                by (nonlinear_arith)
                                requires
                                    n == d * (n / d),
                                    e == n / d,
                                    n / d < d,
                                    i * i > n,
                                    d >= 1,
                                    i >= 1,
                                    n >= 1,
                            ;
                            vstd::arithmetic::div_mod::lemma_mod_multiples_basic(
                                d as int,
                                e as int,
                            );
                            assert((d * e) as int % (e as int) == 0);
                        }
                        assert(small0.contains(e));
                        let t = choose|t: int| 0 <= t < small0.len() && small0[t] == e;
                        assert(t < ll) by {
                            if t == sl - 1 && ll + 1 == sl {
                                assert(small0.last() * small0.last() == n);
                                assert(false) by (nonlinear_arith)
                                    requires
                                        e * e == n,
                                        e * e <= n,
                                        d * e == n,
                                        e != d,
                                        e >= 1,
                                        d >= 1,
                                        small0[t] == e,
                                        small0[t] * small0[t] == n,
                                ;
                            }
                        }
                        assert(large0[t] == d) by (nonlinear_arith)
                            requires
                                large0[t] * small0[t] == n,
                                small0[t] == e,
                                d * e == n,
                                e >= 1,
                        ;
                        assert(r[sl + (ll - 1 - t)] == large0[t]);
                        assert(r.contains(d));
                    }
                }
            }
        }
        small
    }
}

/// Whether `n` is prime.
pub fn is_prime(n: usize) -> (r: bool)
    ensures
        r == is_prime_spec(n as nat),
{
    match smallest_prime_factor(n) {
        Some(factor) => {
            proof {
                if factor == n {
                    assert(is_prime_spec(n as nat));
                } else {
                    assert(!is_prime_spec(n as nat));
                }
            }
            factor == n
        },
        None => false,
    }
}

} // verus!
