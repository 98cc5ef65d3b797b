//! Systematic indices and the pre-code sizes: the table J(K), binomial
//! coefficients, Gray codes, primes, and the derivation of S, H and L from K.
use vstd::prelude::*;

verus! {

/// Largest number of source symbols in one source block.
pub const KMAX: usize = 256;

/// Smallest K that the systematic-index table covers.
pub const J_FIRST: usize = 4;

/// Number of entries of the systematic-index table.
pub const J_LEN: usize = 253;

/// J(K) when the table has an entry for K.
pub open spec fn systematic_index_spec(k: usize) -> Option<usize> {
    if J_FIRST <= k && k < J_FIRST + J_LEN {
        Some(SYSTEMATIC_INDEX@[k - J_FIRST] as usize)
    } else {
        None
    }
}

/// Systematic index J(K) for `k`, or `None` where the table has no entry.
pub fn get_systematic_index(k: usize) -> (r: Option<usize>)
    ensures
        r == systematic_index_spec(k),
        r.is_some() <==> J_FIRST <= k <= KMAX,
{
    if k < J_FIRST || k >= J_FIRST + J_LEN {
        None
    } else {
        Some(SYSTEMATIC_INDEX[k - J_FIRST] as usize)
    }
}

/// Binomial coefficient by Pascal's rule.
pub open spec fn binom(n: nat, k: nat) -> nat
    decreases n,
{
    if k == 0 {
        1
    } else if n == 0 {
        0
    } else {
        binom((n - 1) as nat, (k - 1) as nat) + binom((n - 1) as nat, k)
    }
}

/// `x`, capped at the largest `usize`.
pub open spec fn cap(x: nat) -> usize {
    if x > usize::MAX {
        usize::MAX
    } else {
        x as usize
    }
}

pub proof fn lemma_binom_above(n: nat, k: nat)
    requires
        k > n,
    ensures
        binom(n, k) == 0,
    decreases n,
{
    if n > 0 {
        lemma_binom_above((n - 1) as nat, (k - 1) as nat);
        lemma_binom_above((n - 1) as nat, k);
    }
}

/// Binomial coefficient `n` choose `k`, capped at the largest `usize`.
pub fn combinations(n: usize, k: usize) -> (r: usize)
    ensures
        r == cap(binom(n as nat, k as nat)),
{
    if k > n {
        proof {
            lemma_binom_above(n as nat, k as nat);
        }
        return 0;
    }
    let mut row: Vec<usize> = Vec::new();
    row.push(1);
    while row.len() <= k
        invariant
            1 <= row.len() <= k + 1,
            k <= n,
            row@[0] == 1,
            forall|j: int| 1 <= j < row.len() ==> row@[j] == 0,
        decreases k + 1 - row.len(),
    {
        row.push(0);
    }
    assert forall|j: int| 0 <= j <= k implies row@[j] == cap(binom(0, j as nat)) by {}
    let mut m: usize = 0;
    while m < n
        invariant
            row.len() == k + 1,
            m <= n,
            forall|j: int| 0 <= j <= k ==> row@[j] == cap(binom(m as nat, j as nat)),
        decreases n - m,
    {
        let mut j: usize = k;
        while j > 0
            invariant
                row.len() == k + 1,
                m < n,
                j <= k,
                forall|i: int| 0 <= i <= j ==> row@[i] == cap(binom(m as nat, i as nat)),
                forall|i: int|
                    j < i <= k ==> row@[i] == cap(binom((m + 1) as nat, i as nat)),
            decreases j,
        {
            let a = row[j];
            let b = row[j - 1];
            let c = if a > usize::MAX - b {
                usize::MAX
            } else {
                a + b
            };
            assert(binom((m + 1) as nat, j as nat) == binom(m as nat, (j - 1) as nat) + binom(
                m as nat,
                j as nat,
            ));
            row.set(j, c);
            j = j - 1;
        }
        m = m + 1;
    }
    row[k]
}

/// The n-th Gray code.
pub open spec fn gray(n: u64) -> u64 {
    n ^ (n >> 1u64)
}

/// `x` has exactly one bit set.
pub open spec fn one_bit(x: u64) -> bool {
    x != 0 && x & ((x - 1) as u64) == 0
}

/// The Gray codes of 0, 1, ..., length - 1.
pub fn generate_gray_sequence(length: usize) -> (r: Vec<u64>)
    ensures
        r@.len() == length,
        forall|i: int| 0 <= i < length ==> r@[i] == gray(i as u64),
{
    let mut sequence: Vec<u64> = Vec::with_capacity(length);
    let mut i: usize = 0;
    while i < length
        invariant
            i <= length,
            sequence@.len() == i,
            forall|j: int| 0 <= j < i ==> sequence@[j] == gray(j as u64),
        decreases length - i,
    {
        let v: u64 = i as u64;
        sequence.push(v ^ (v >> 1u64));
        i = i + 1;
    }
    sequence
}

/// Consecutive Gray codes differ in exactly one bit.
pub proof fn lemma_gray_adjacent(n: u64)
    requires
        n < u64::MAX,
    ensures
        one_bit(gray(n) ^ gray((n + 1) as u64)),
{
    let m: u64 = (n + 1) as u64;
    let x: u64 = (n ^ (n >> 1u64)) ^ (m ^ (m >> 1u64));
    assert(x != 0 && x & ((x - 1) as u64) == 0) by (bit_vector)
        requires
            n < 0xffff_ffff_ffff_ffffu64,
            m == n + 1,
            x == (n ^ (n >> 1u64)) ^ (m ^ (m >> 1u64)),
    ;
}

/// `n` is prime.
pub open spec fn is_prime(n: nat) -> bool {
    n >= 2 && forall|d: nat| 2 <= d < n ==> #[trigger] (n % d) != 0
}

/// Largest value that `next_prime` accepts; itself a prime.
pub const PRIME_BOUND: usize = 307;

proof fn lemma_no_small_factor(d: int, q: int)
    requires
        2 <= d <= 17,
    ensures
        d * q != 307,
        d * q != 29,
{
    if d == 2 {
        assert(2 * q != 307 && 2 * q != 29);
    } else if d == 3 {
        assert(3 * q != 307 && 3 * q != 29);
    } else if d == 4 {
        assert(4 * q != 307 && 4 * q != 29);
    } else if d == 5 {
        assert(5 * q != 307 && 5 * q != 29);
    } else if d == 6 {
        assert(6 * q != 307 && 6 * q != 29);
    } else if d == 7 {
        assert(7 * q != 307 && 7 * q != 29);
    } else if d == 8 {
        assert(8 * q != 307 && 8 * q != 29);
    } else if d == 9 {
        assert(9 * q != 307 && 9 * q != 29);
    } else if d == 10 {
        assert(10 * q != 307 && 10 * q != 29);
    } else if d == 11 {
        assert(11 * q != 307 && 11 * q != 29);
    } else if d == 12 {
        assert(12 * q != 307 && 12 * q != 29);
    } else if d == 13 {
        assert(13 * q != 307 && 13 * q != 29);
    } else if d == 14 {
        assert(14 * q != 307 && 14 * q != 29);
    } else if d == 15 {
        assert(15 * q != 307 && 15 * q != 29);
    } else if d == 16 {
        assert(16 * q != 307 && 16 * q != 29);
    } else {
        assert(17 * q != 307 && 17 * q != 29);
    }
}

proof fn lemma_small_prime()
    ensures
        is_prime(29),
{
    assert forall|d: nat| 2 <= d < 29 implies #[trigger] (29nat % d) != 0 by {
        if 29nat % d == 0 {
            let q: int = 29int / (d as int);
            vstd::arithmetic::div_mod::lemma_fundamental_div_mod(29, d as int);
            assert(d * q == 29);
            if d <= 17 {
                lemma_no_small_factor(d as int, q);
            } else {
                assert(q <= 1) by (nonlinear_arith)
                    requires
                        d * q == 29,
                        18 <= d < 29,
                ;
                assert(d * q < 29) by (nonlinear_arith)
                    requires
                        q <= 1,
                        18 <= d < 29,
                ;
            }
        }
    }
}

pub proof fn lemma_bound_is_prime()
    ensures
        is_prime(PRIME_BOUND as nat),
{
    assert forall|d: nat| 2 <= d < 307 implies #[trigger] (307nat % d) != 0 by {
        if 307nat % d == 0 {
            let q: int = 307int / (d as int);
            vstd::arithmetic::div_mod::lemma_fundamental_div_mod(307, d as int);
            assert(d * q == 307);
            if d <= 17 {
                lemma_no_small_factor(d as int, q);
            } else {
                assert(q <= 17 && q >= 2) by (nonlinear_arith)
                    requires
                        d * q == 307,
                        18 <= d < 307,
                ;
                assert(q * d == 307) by (nonlinear_arith)
                    requires
                        d * q == 307,
                ;
                lemma_no_small_factor(q, d as int);
            }
        }
    }
}

fn is_prime_number(n: usize) -> (r: bool)
    ensures
        r == is_prime(n as nat),
{
    if n < 2 {
        return false;
    }
    let mut d: usize = 2;
    while d < n
        invariant
            2 <= d <= n,
            forall|e: nat| 2 <= e < d ==> #[trigger] ((n as nat) % e) != 0,
        decreases n - d,
    {
        if n % d == 0 {
            assert((n as nat) % (d as nat) == 0);
            return false;
        }
        d = d + 1;
    }
    true
}

/// The smallest prime at or above `n`.
pub(crate) fn next_prime(n: usize) -> (r: usize)
    requires
        n <= PRIME_BOUND,
    ensures
        is_prime(r as nat),
        n <= r <= PRIME_BOUND,
        forall|q: nat| n <= q < r ==> !is_prime(q),
{
    proof {
        lemma_bound_is_prime();
    }
    let mut p: usize = n;
    while !is_prime_number(p)
        invariant
            n <= p <= PRIME_BOUND,
            is_prime(PRIME_BOUND as nat),
            forall|q: nat| n <= q < p ==> !is_prime(q),
        decreases PRIME_BOUND - p,
    {
        p = p + 1;
    }
    p
}

/// `x` is the smallest positive integer with x (x - 1) >= 2k.
pub open spec fn is_ldpc_x(k: nat, x: nat) -> bool {
    x >= 1 && x * (x - 1) >= 2 * k && forall|y: nat| 1 <= y < x ==> #[trigger] (y * (y - 1)) < 2 * k
}

/// `s` is the number of LDPC symbols for `k`: the smallest prime at or above
/// ceil(k / 100) + x, with x as in `is_ldpc_x`.
pub open spec fn is_ldpc_s(k: nat, s: nat) -> bool {
    exists|x: nat|
        #![trigger is_ldpc_x(k, x)]
        is_ldpc_x(k, x) && is_prime(s) && s >= (k + 99) / 100 + x && forall|q: nat|
            (k + 99) / 100 + x <= q < s ==> !is_prime(q)
}

/// `h` is the smallest positive integer with binom(h, ceil(h / 2)) >= k + s.
pub open spec fn is_half_h(k: nat, s: nat, h: nat) -> bool {
    h >= 1 && binom(h, (h + 1) / 2) >= k + s && forall|g: nat|
        1 <= g < h ==> #[trigger] binom(g, (g + 1) / 2) < k + s
}

/// Sizes of the pre-code: S LDPC symbols, H Half symbols, L = K + S + H in all.
pub struct LDPCParams {
    pub s: usize,
    pub h: usize,
    pub l: usize,
}

impl LDPCParams {
    /// The pre-code sizes for `k` source symbols.
    pub fn new(k: usize) -> (r: Self)
        requires
            k <= KMAX,
        ensures
            is_ldpc_s(k as nat, r.s as nat),
            is_half_h(k as nat, r.s as nat, r.h as nat),
            r.l == k + r.s + r.h,
            r.s <= 29,
            r.h <= 11,
            r.l <= PRIME_BOUND,
    {
        proof {
            lemma_small_prime();
            reveal_with_fuel(binom, 12);
            assert(binom(11, 6) == 462);
        }
        let mut x: usize = 1;
        loop
            invariant
                1 <= x <= 24,
                k <= KMAX,
                forall|y: nat| 1 <= y < x ==> #[trigger] (y * (y - 1)) < 2 * k,
            ensures
                1 <= x <= 24,
                x * (x - 1) >= 2 * k,
                forall|y: nat| 1 <= y < x ==> #[trigger] (y * (y - 1)) < 2 * k,
            decreases 24 - x,
        {
            assert(x * (x - 1) <= 552) by (nonlinear_arith)
                requires
                    1 <= x <= 24,
            ;
            if x * (x - 1) >= 2 * k {
                break;
            }
            if x == 24 {
                assert(x * (x - 1) == 552);
            }
            x = x + 1;
        }
        assert(is_ldpc_x(k as nat, x as nat));
        let s: usize = next_prime((k + 99) / 100 + x);
        assert(is_ldpc_s(k as nat, s as nat));
        assert(s <= 29) by {
            if s > 29 {
                assert(!is_prime(29));
            }
        }
        let mut h: usize = 1;
        while combinations(h, (h + 1) / 2) < k + s
            invariant
                1 <= h <= 11,
                k <= KMAX,
                s <= 29,
                binom(11, 6) == 462,
                forall|g: nat| 1 <= g < h ==> #[trigger] binom(g, (g + 1) / 2) < k + s,
            decreases 11 - h,
        {
            assert(h < 11);
            h = h + 1;
        }
        LDPCParams { s, h, l: k + s + h }
    }
}

/// The systematic-index table J(K) for K = 4 ..= KMAX. The entries for
/// K = 4 ..= 79 are the published ones; for K = 80 ..= KMAX, for which no
/// published value is at hand, each is the smallest J for which the
/// constraint matrix A(K) is invertible over GF(2). Where A(K) is singular the
/// encoder reports it (`FountainError::PreCodeSingular`).
pub const SYSTEMATIC_INDEX: [u32; 253] = [
    18, 14, 61, 46, 39, 58, 62, 55, 41, 67, 50, 75,
    43, 19, 37, 30, 22, 53, 25, 34, 29, 20, 33, 15,
    24, 13, 35, 51, 9, 49, 45, 63, 8, 48, 54, 47,
    59, 71, 32, 52, 38, 27, 26, 69, 23, 56, 40, 66,
    17, 65, 74, 21, 36, 57, 60, 16, 64, 42, 12, 31,
    68, 28, 73, 70, 44, 11, 7, 72, 6, 10, 5, 4,
    3, 2, 1, 0, 0, 4, 5, 2, 7, 15, 16, 0,
    4, 8, 20, 0, 1, 18, 3, 3, 3, 4, 4, 0,
    15, 2, 3, 7, 11, 8, 16, 3, 4, 0, 4, 6,
    9, 1, 5, 16, 0, 0, 9, 4, 0, 0, 9, 0,
    7, 1, 5, 3, 0, 0, 1, 7, 0, 6, 5, 9,
    1, 0, 7, 1, 0, 0, 0, 4, 0, 8, 0, 4,
    10, 26, 2, 21, 1, 0, 4, 9, 1, 5, 7, 4,
    25, 7, 8, 1, 10, 7, 13, 5, 8, 3, 2, 3,
    6, 1, 0, 6, 17, 6, 1, 5, 5, 2, 20, 5,
    1, 1, 8, 5, 0, 12, 4, 8, 3, 1, 6, 4,
    7, 17, 4, 1, 11, 3, 7, 3, 5, 4, 3, 6,
    11, 2, 14, 4, 7, 4, 17, 4, 7, 2, 8, 6,
    5, 2, 3, 1, 9, 2, 9, 7, 3, 11, 0, 1,
    0, 16, 5, 0, 5, 3, 0, 19, 8, 1, 4, 6,
    18, 17, 5, 2, 6, 14, 14, 17, 0, 11, 0, 7,
    7,
];

} // verus!
