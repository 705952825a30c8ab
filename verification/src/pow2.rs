use vstd::prelude::*;

verus! {

/// `n` is a power of two (1, 2, 4, ...).
pub open spec fn is_pow2(n: int) -> bool
    decreases n,
{
    if n <= 0 {
        false
    } else if n == 1 {
        true
    } else {
        n % 2 == 0 && is_pow2(n / 2)
    }
}

/// `p` is the smallest power of two that is at least `n`.
pub open spec fn is_next_pow2(p: int, n: int) -> bool {
    &&& is_pow2(p)
    &&& p >= n
    &&& (p == 1 || p / 2 < n)
}

/// A power of two that is at least two is even, and its half is again a power of two.
pub proof fn lemma_pow2_half(n: int)
    requires
        is_pow2(n),
        n >= 2,
    ensures
        n % 2 == 0,
        is_pow2(n / 2),
        n / 2 * 2 == n,
{
}

/// Doubling a power of two gives a power of two.
pub proof fn lemma_pow2_double(n: int)
    requires
        is_pow2(n),
    ensures
        is_pow2(2 * n),
{
    assert((2 * n) / 2 == n);
}

/// Of two powers of two, the smaller one divides the larger one and is at most its half.
pub proof fn lemma_pow2_le(a: int, b: int)
    requires
        is_pow2(a),
        is_pow2(b),
        a < b,
    ensures
        2 * a <= b,
        b % a == 0,
    decreases a,
{
    lemma_pow2_pos(a);
    lemma_pow2_half(b);
    if a == 1 {
    } else {
        lemma_pow2_half(a);
        lemma_pow2_le(a / 2, b / 2);
        let c = b / 2;
        let d = a / 2;
        assert(b % a == 0) by (nonlinear_arith)
            requires
                b == 2 * c,
                a == 2 * d,
                c % d == 0,
                d > 0,
        {
            let k = c / d;
            assert(c == k * d);
            assert(b == k * a);
        }
    }
}

/// There is only one smallest power of two that is at least `n`.
pub proof fn lemma_next_pow2_unique(p: int, q: int, n: int)
    requires
        is_next_pow2(p, n),
        is_next_pow2(q, n),
    ensures
        p == q,
{
    if p < q {
        lemma_pow2_le(p, q);
        lemma_pow2_pos(p);
    } else if q < p {
        lemma_pow2_le(q, p);
        lemma_pow2_pos(q);
    }
}

/// Every power of two is positive.
pub proof fn lemma_pow2_pos(n: int)
    requires
        is_pow2(n),
    ensures
        n >= 1,
{
}

/// Returns the smallest power of two greater than or equal to `n`.
pub fn next_power_of_two(n: usize) -> (p: usize)
    requires
        n <= usize::MAX / 2 + 1,
    ensures
        is_next_pow2(p as int, n as int),
{
    let mut p: usize = 1;
    while p < n
        invariant
            is_pow2(p as int),
            p == 1 || p / 2 < n,
            n <= usize::MAX / 2 + 1,
        decreases usize::MAX - p,
    {
        proof {
            lemma_pow2_double(p as int);
        }
        p = p * 2;
    }
    p
}

/// Returns `true` if `n` is a power of two.
pub fn is_power_of_two(n: usize) -> (r: bool)
    ensures
        r == is_pow2(n as int),
{
    if n == 0 {
        return false;
    }
    let mut m = n;
    while m % 2 == 0
        invariant
            m >= 1,
            is_pow2(n as int) == is_pow2(m as int),
        decreases m,
    {
        m = m / 2;
    }
    m == 1
}

} // verus!
