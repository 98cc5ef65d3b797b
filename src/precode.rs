//! The constraint matrix A(K): S LDPC rows, H Half rows, and the LT row of
//! any encoding symbol identifier, each a row of L bits.
use vstd::prelude::*;
use crate::distribution::{triple, triple_spec};
use crate::gf2::zeros;
use crate::systematic::{
    get_systematic_index, gray, is_half_h, is_ldpc_s, is_prime, next_prime, systematic_index_spec,
    LDPCParams, KMAX, PRIME_BOUND,
};

verus! {

/// The sizes of the code for one source block.
#[derive(Clone, Copy, PartialEq, Eq, Debug)]
pub struct CodeParams {
    /// Source symbols.
    pub k: usize,
    /// LDPC symbols.
    pub s: usize,
    /// Half symbols.
    pub h: usize,
    /// Intermediate symbols, K + S + H.
    pub l: usize,
    /// The smallest prime at or above L: the column space of the LT rows.
    pub lp: usize,
}

impl CodeParams {
    /// The sizes are those that K determines.
    pub open spec fn wf(&self) -> bool {
        &&& systematic_index_spec(self.k).is_some()
        &&& self.k <= KMAX
        &&& is_ldpc_s(self.k as nat, self.s as nat)
        &&& is_half_h(self.k as nat, self.s as nat, self.h as nat)
        &&& self.l == self.k + self.s + self.h
        &&& is_prime(self.lp as nat)
        &&& self.l <= self.lp <= PRIME_BOUND
        &&& forall|q: nat| self.l <= q < self.lp ==> !is_prime(q)
        &&& 2 <= self.s <= 29
        &&& 1 <= self.h <= 11
        &&& 4 <= self.k
    }

    /// The code sizes for `k` source symbols, or `None` where J(k) is undefined.
    pub fn new(k: usize) -> (r: Option<Self>)
        ensures
            r.is_some() <==> systematic_index_spec(k).is_some(),
            r matches Some(p) ==> p.wf() && p.k == k,
    {
        if get_systematic_index(k).is_none() {
            return None;
        }
        let pc = LDPCParams::new(k);
        let lp = next_prime(pc.l);
        proof {
            if pc.s < 2 {
                assert(is_prime(pc.s as nat));
            }
        }
        Some(CodeParams { k, s: pc.s, h: pc.h, l: pc.l, lp })
    }
}

/// How often LDPC row `r` is hit by source symbol `j` (RFC 5053, 5.4.2.3).
pub open spec fn ldpc_hits(s: nat, j: nat, r: nat) -> nat {
    let a = 1 + (j / s) % ((s - 1) as nat);
    let b0 = j % s;
    let b1 = (b0 + a) % s;
    let b2 = (b1 + a) % s;
    (if b0 == r {
        1nat
    } else {
        0nat
    }) + (if b1 == r {
        1nat
    } else {
        0nat
    }) + (if b2 == r {
        1nat
    } else {
        0nat
    })
}

/// Column `j` of LDPC row `r`.
pub open spec fn ldpc_entry(k: nat, s: nat, r: nat, j: nat) -> u8 {
    if j < k {
        if ldpc_hits(s, j, r) % 2 == 1 {
            1
        } else {
            0
        }
    } else if j == k + r {
        1
    } else {
        0
    }
}

/// Number of one bits of `x`.
pub open spec fn pop(x: nat) -> nat
    decreases x,
{
    if x == 0 {
        0
    } else {
        x % 2 + pop(x / 2)
    }
}

/// 2 to the power `e`.
pub open spec fn pow2(e: nat) -> nat
    decreases e,
{
    if e == 0 {
        1
    } else {
        2 * pow2((e - 1) as nat)
    }
}

/// The Gray codes of 0 .. n - 1 that have exactly `hp` one bits, in order.
pub open spec fn half_codes(hp: nat, n: nat) -> Seq<u64>
    decreases n,
{
    if n == 0 {
        Seq::empty()
    } else {
        let prev = half_codes(hp, (n - 1) as nat);
        let g = gray((n - 1) as u64);
        if pop(g as nat) == hp {
            prev.push(g)
        } else {
            prev
        }
    }
}

/// The Gray code that Half rows use for column `j`.
pub open spec fn half_code(h: nat, j: nat) -> u64 {
    let all = half_codes((h + 1) / 2, pow2(h));
    if j < all.len() {
        all[j as int]
    } else {
        0
    }
}

/// Column `j` of Half row `r`.
pub open spec fn half_entry(k: nat, s: nat, h: nat, r: nat, j: nat) -> u8 {
    if j < k + s {
        if (half_code(h, j) >> (r as u64)) & 1u64 == 1u64 {
            1
        } else {
            0
        }
    } else if j == k + s + r {
        1
    } else {
        0
    }
}

/// Row `i` of the pre-code: an LDPC row for i < S, a Half row after.
pub open spec fn precode_row(p: CodeParams, i: nat) -> Seq<u8> {
    Seq::new(
        p.l as nat,
        |j: int|
            if i < p.s {
                ldpc_entry(p.k as nat, p.s as nat, i, j as nat)
            } else {
                half_entry(p.k as nat, p.s as nat, p.h as nat, (i - p.s) as nat, j as nat)
            },
    )
}

proof fn lemma_pop_le(x: nat)
    ensures
        pop(x) <= x,
    decreases x,
{
    if x > 0 {
        lemma_pop_le(x / 2);
    }
}

fn popcount(x: u64) -> (r: u64)
    ensures
        r as nat == pop(x as nat),
{
    let mut v: u64 = x;
    let mut acc: u64 = 0;
    proof {
        lemma_pop_le(x as nat);
    }
    while v > 0
        invariant
            acc + pop(v as nat) == pop(x as nat),
            pop(x as nat) <= x,
        decreases v,
    {
        acc = acc + v % 2;
        v = v / 2;
    }
    acc
}

proof fn lemma_pow2_mono(i: nat, j: nat)
    requires
        i <= j,
    ensures
        pow2(i) <= pow2(j),
    decreases j,
{
    if i < j {
        lemma_pow2_mono(i, (j - 1) as nat);
    }
}

fn pow2_exec(e: usize) -> (r: u64)
    requires
        e <= 11,
    ensures
        r as nat == pow2(e as nat),
        r <= 2048,
{
    proof {
        reveal_with_fuel(pow2, 12);
        lemma_pow2_mono(e as nat, 11);
    }
    let mut m: u64 = 1;
    let mut i: usize = 0;
    while i < e
        invariant
            i <= e,
            e <= 11,
            m as nat == pow2(i as nat),
            pow2(10) == 1024,
        decreases e - i,
    {
        proof {
            lemma_pow2_mono(i as nat, 10);
        }
        m = m * 2;
        i = i + 1;
    }
    m
}

fn half_codes_exec(h: usize) -> (r: Vec<u64>)
    requires
        h <= 11,
    ensures
        r@ == half_codes(((h + 1) / 2) as nat, pow2(h as nat)),
{
    proof {
        reveal_with_fuel(pow2, 12);
    }
    let hp: u64 = ((h + 1) / 2) as u64;
    let end = pow2_exec(h);
    let mut codes: Vec<u64> = Vec::new();
    let mut n: u64 = 0;
    while n < end
        invariant
            n <= end,
            end <= 2048,
            codes@ == half_codes(hp as nat, n as nat),
        decreases end - n,
    {
        let g: u64 = n ^ (n >> 1u64);
        assert(g == gray(n));
        if popcount(g) == hp {
            codes.push(g);
        }
        n = n + 1;
    }
    codes
}

fn ldpc_entry_exec(k: usize, s: usize, r: usize, j: usize) -> (e: u8)
    requires
        s >= 2,
        k <= KMAX,
        s <= 29,
        r < s,
        j <= 400,
    ensures
        e == ldpc_entry(k as nat, s as nat, r as nat, j as nat),
{
    if j < k {
        let a = 1 + (j / s) % (s - 1);
        let b0 = j % s;
        let b1 = (b0 + a) % s;
        let b2 = (b1 + a) % s;
        let hits: usize = (if b0 == r {
            1
        } else {
            0
        }) + (if b1 == r {
            1
        } else {
            0
        }) + (if b2 == r {
            1
        } else {
            0
        });
        if hits % 2 == 1 {
            1
        } else {
            0
        }
    } else if j == k + r {
        1
    } else {
        0
    }
}

fn half_entry_exec(codes: &Vec<u64>, k: usize, s: usize, h: usize, r: usize, j: usize) -> (e: u8)
    requires
        h <= 11,
        r < h,
        k <= KMAX,
        s <= 29,
        codes@ == half_codes(((h + 1) / 2) as nat, pow2(h as nat)),
    ensures
        e == half_entry(k as nat, s as nat, h as nat, r as nat, j as nat),
{
    if j < k + s {
        let code: u64 = if j < codes.len() {
            codes[j]
        } else {
            0
        };
        if (code >> (r as u64)) & 1u64 == 1u64 {
            1
        } else {
            0
        }
    } else if j == k + s + r {
        1
    } else {
        0
    }
}

/// The S + H rows of the pre-code.
pub fn precode_rows(p: &CodeParams) -> (r: Vec<Vec<u8>>)
    requires
        p.wf(),
    ensures
        r.len() == p.s + p.h,
        forall|i: int| 0 <= i < p.s + p.h ==> (#[trigger] r@[i])@ == precode_row(*p, i as nat),
{
    let codes = half_codes_exec(p.h);
    let mut rows: Vec<Vec<u8>> = Vec::with_capacity(p.s + p.h);
    let mut i: usize = 0;
    while i < p.s + p.h
        invariant
            p.wf(),
            i <= p.s + p.h,
            rows.len() == i,
            codes@ == half_codes(((p.h + 1) / 2) as nat, pow2(p.h as nat)),
            forall|e: int| 0 <= e < i ==> (#[trigger] rows@[e])@ == precode_row(*p, e as nat),
        decreases p.s + p.h - i,
    {
        let mut row: Vec<u8> = Vec::with_capacity(p.l);
        let mut j: usize = 0;
        while j < p.l
            invariant
                p.wf(),
                i < p.s + p.h,
                j <= p.l,
                codes@ == half_codes(((p.h + 1) / 2) as nat, pow2(p.h as nat)),
                row@ == precode_row(*p, i as nat).subrange(0, j as int),
            decreases p.l - j,
        {
            let e = if i < p.s {
                ldpc_entry_exec(p.k, p.s, i, j)
            } else {
                half_entry_exec(&codes, p.k, p.s, p.h, i - p.s, j)
            };
            row.push(e);
            j = j + 1;
            assert(row@ =~= precode_row(*p, i as nat).subrange(0, j as int));
        }
        assert(row@ =~= precode_row(*p, i as nat));
        rows.push(row);
        i = i + 1;
    }
    rows
}

/// Where a column that falls at or beyond L moves: on by `a` modulo L', at most
/// L' times, then reduced modulo L.
pub open spec fn skip_high(c: nat, a: nat, l: nat, lp: nat, fuel: nat) -> nat
    decreases fuel,
{
    if c < l {
        c
    } else if fuel == 0 {
        c % l
    } else {
        skip_high((c + a) % lp, a, l, lp, (fuel - 1) as nat)
    }
}

/// Column number `j` of the LT row for (a, b): b, then steps of `a` modulo L'.
pub open spec fn lt_col(j: nat, a: nat, b: nat, l: nat, lp: nat) -> nat
    decreases j,
{
    if j == 0 {
        skip_high(b, a, l, lp, lp)
    } else {
        skip_high((lt_col((j - 1) as nat, a, b, l, lp) + a) % lp, a, l, lp, lp)
    }
}

/// A bit flipped.
pub open spec fn flip(v: u8) -> u8 {
    if v == 0 {
        1
    } else {
        0
    }
}

/// L bits with the first `n` LT columns for (a, b) flipped.
pub open spec fn lt_bits(n: nat, a: nat, b: nat, l: nat, lp: nat) -> Seq<u8>
    decreases n,
{
    if n == 0 {
        zeros(l)
    } else {
        let prev = lt_bits((n - 1) as nat, a, b, l, lp);
        let c = lt_col((n - 1) as nat, a, b, l, lp) as int;
        prev.update(c, flip(prev[c]))
    }
}

/// The LT row of identifier `x`.
pub open spec fn lt_row_spec(p: CodeParams, x: u32) -> Seq<u8> {
    let t = triple_spec(p.k, x).unwrap();
    lt_bits(t.0 as nat, t.1 as nat, t.2 as nat, p.l as nat, p.lp as nat)
}

/// Every pre-code row is a row of bits.
pub proof fn lemma_precode_row_bits(p: CodeParams, i: nat)
    ensures
        crate::gf2::is_bits(precode_row(p, i)),
{
    assert forall|j: int| 0 <= j < precode_row(p, i).len() implies #[trigger] precode_row(p, i)[j]
        <= 1 by {}
}

proof fn lemma_lt_bits_bits(n: nat, a: nat, b: nat, l: nat, lp: nat)
    requires
        l > 0,
        lp > 0,
    ensures
        crate::gf2::is_bits(lt_bits(n, a, b, l, lp)),
    decreases n,
{
    if n > 0 {
        lemma_lt_bits_bits((n - 1) as nat, a, b, l, lp);
        lemma_lt_bits_len((n - 1) as nat, a, b, l, lp);
        lemma_lt_col_below((n - 1) as nat, a, b, l, lp);
        let prev = lt_bits((n - 1) as nat, a, b, l, lp);
        let c = lt_col((n - 1) as nat, a, b, l, lp) as int;
        assert forall|j: int| 0 <= j < lt_bits(n, a, b, l, lp).len() implies #[trigger] lt_bits(
            n,
            a,
            b,
            l,
            lp,
        )[j] <= 1 by {
            if j != c {
                assert(prev[j] <= 1);
            }
        }
    }
}

/// Every LT row is a row of bits.
pub proof fn lemma_lt_row_bits(p: CodeParams, x: u32)
    requires
        p.wf(),
    ensures
        crate::gf2::is_bits(lt_row_spec(p, x)),
{
    let t = triple_spec(p.k, x).unwrap();
    lemma_lt_bits_bits(t.0 as nat, t.1 as nat, t.2 as nat, p.l as nat, p.lp as nat);
}

/// Every LT row has L entries.
pub proof fn lemma_lt_row_len(p: CodeParams, x: u32)
    requires
        p.wf(),
    ensures
        lt_row_spec(p, x).len() == p.l,
{
    let t = triple_spec(p.k, x).unwrap();
    lemma_lt_bits_len(t.0 as nat, t.1 as nat, t.2 as nat, p.l as nat, p.lp as nat);
}

proof fn lemma_skip_high_below(c: nat, a: nat, l: nat, lp: nat, fuel: nat)
    requires
        l > 0,
        lp > 0,
    ensures
        skip_high(c, a, l, lp, fuel) < l,
    decreases fuel,
{
    if c >= l && fuel > 0 {
        lemma_skip_high_below((c + a) % lp, a, l, lp, (fuel - 1) as nat);
    }
}

proof fn lemma_lt_bits_len(n: nat, a: nat, b: nat, l: nat, lp: nat)
    requires
        l > 0,
        lp > 0,
    ensures
        lt_bits(n, a, b, l, lp).len() == l,
    decreases n,
{
    if n > 0 {
        lemma_lt_bits_len((n - 1) as nat, a, b, l, lp);
        lemma_lt_col_below((n - 1) as nat, a, b, l, lp);
    }
}

proof fn lemma_lt_col_below(j: nat, a: nat, b: nat, l: nat, lp: nat)
    requires
        l > 0,
        lp > 0,
    ensures
        lt_col(j, a, b, l, lp) < l,
{
    if j == 0 {
        lemma_skip_high_below(b, a, l, lp, lp);
    } else {
        lemma_skip_high_below((lt_col((j - 1) as nat, a, b, l, lp) + a) % lp, a, l, lp, lp);
    }
}

fn skip_high_exec(c: usize, a: usize, l: usize, lp: usize) -> (r: usize)
    requires
        0 < l <= lp <= PRIME_BOUND,
        c < lp,
        a < lp,
    ensures
        r as nat == skip_high(c as nat, a as nat, l as nat, lp as nat, lp as nat),
        r < l,
{
    proof {
        lemma_skip_high_below(c as nat, a as nat, l as nat, lp as nat, lp as nat);
    }
    let mut cur: usize = c;
    let mut fuel: usize = lp;
    while cur >= l && fuel > 0
        invariant
            0 < l <= lp <= PRIME_BOUND,
            cur < lp,
            a < lp,
            fuel <= lp,
            skip_high(cur as nat, a as nat, l as nat, lp as nat, fuel as nat) == skip_high(
                c as nat,
                a as nat,
                l as nat,
                lp as nat,
                lp as nat,
            ),
        decreases fuel,
    {
        cur = (cur + a) % lp;
        fuel = fuel - 1;
    }
    if cur >= l {
        cur % l
    } else {
        cur
    }
}

/// The LT row of identifier `x`: the columns that the triple for `x` selects.
pub fn lt_row(p: &CodeParams, x: u32) -> (r: Vec<u8>)
    requires
        p.wf(),
    ensures
        r@ == lt_row_spec(*p, x),
        r@.len() == p.l,
{
    let t = triple(p.k, x);
    let (d, a, b) = t.unwrap();
    let a = a as usize;
    let b = b as usize;
    let l = p.l;
    let lp = p.lp;
    let mut row = crate::gf2::zero_vec(l);
    let mut cur: usize = skip_high_exec(b, a, l, lp);
    let mut j: usize = 0;
    while j < d
        invariant
            p.wf(),
            l == p.l,
            lp == p.lp,
            a < p.k,
            b < p.k,
            d <= 40,
            j <= d,
            cur < l,
            j < d ==> cur as nat == lt_col(j as nat, a as nat, b as nat, l as nat, lp as nat),
            row@ == lt_bits(j as nat, a as nat, b as nat, l as nat, lp as nat),
        decreases d - j,
    {
        proof {
            lemma_lt_bits_len(j as nat, a as nat, b as nat, l as nat, lp as nat);
        }
        let v = row[cur];
        row.set(cur, if v == 0 {
            1
        } else {
            0
        });
        j = j + 1;
        if j < d {
            cur = skip_high_exec((cur + a) % lp, a, l, lp);
        }
    }
    proof {
        lemma_lt_bits_len(d as nat, a as nat, b as nat, l as nat, lp as nat);
    }
    row
}

} // verus!
