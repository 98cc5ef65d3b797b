//! The triple generator: (d, a, b) for an encoding symbol, as a pure
//! function of the source-symbol count K and the symbol identifier X.
use vstd::prelude::*;
use crate::systematic::{get_systematic_index, systematic_index_spec};
use crate::tables::{deg, deg_spec, rand, rand_spec, DEG_RANGE, Q};

verus! {

/// The smaller of two naturals.
pub open spec fn min_nat(a: nat, b: nat) -> nat {
    if a <= b {
        a
    } else {
        b
    }
}

/// Y, the seed that drives the three draws of a triple.
pub open spec fn triple_seed(j: int, x: u32) -> u32 {
    let ap: int = (53591 + j * 997) % (Q as int);
    let bp: int = (10267 * (j + 1)) % (Q as int);
    ((bp + (x as int) * ap) % (Q as int)) as u32
}

/// The triple (d, a, b) for `k` source symbols and identifier `x`, or `None`
/// where J(k) is not defined.
pub open spec fn triple_spec(k: usize, x: u32) -> Option<(usize, u32, u32)> {
    match systematic_index_spec(k) {
        None => None,
        Some(j) => {
            let y = triple_seed(j as int, x);
            let d = deg_spec(rand_spec(y, 0, DEG_RANGE));
            let a = 1 + rand_spec(y, 1, (k - 1) as u32);
            let b = rand_spec(y, 2, k as u32);
            Some((min_nat(d as nat, k as nat) as usize, a as u32, b))
        },
    }
}

/// Every triple lies in range: 1 <= d <= min(40, k), 1 <= a < k, b < k.
pub open spec fn triple_in_range(k: usize, t: (usize, u32, u32)) -> bool {
    1 <= t.0 <= 40 && t.0 <= k && 1 <= t.1 < k && t.2 < k
}

/// Whenever the triple is defined it lies in range.
pub proof fn lemma_triple_in_range(k: usize, x: u32)
    requires
        triple_spec(k, x).is_some(),
    ensures
        triple_in_range(k, triple_spec(k, x).unwrap()),
{
    let j = systematic_index_spec(k).unwrap();
    let y = triple_seed(j as int, x);
    assert(rand_spec(y, 1, (k - 1) as u32) < k - 1);
    assert(rand_spec(y, 2, k as u32) < k);
    let d = deg_spec(rand_spec(y, 0, DEG_RANGE));
    assert(1 <= d <= 40);
}

/// The triple (d, a, b) for `k` source symbols and identifier `x`.
pub fn triple(k: usize, x: u32) -> (r: Option<(usize, u32, u32)>)
    ensures
        r == triple_spec(k, x),
        r.is_some() ==> triple_in_range(k, r.unwrap()),
{
    let j = match get_systematic_index(k) {
        None => {
            return None;
        },
        Some(j) => j,
    };
    proof {
        lemma_triple_in_range(k, x);
    }
    let q: u64 = Q as u64;
    let ap: u64 = (53591 + (j as u64) * 997) % q;
    let bp: u64 = (10267 * ((j as u64) + 1)) % q;
    assert(ap < q && (x as u64) * ap <= 0xffff_ffffu64 * q) by (nonlinear_arith)
        requires
            ap < q,
            q == 65521,
    ;
    let y: u32 = ((bp + (x as u64) * ap) % q) as u32;
    let v = rand(y, 0, DEG_RANGE);
    let d = deg(v);
    let a = 1 + rand(y, 1, (k - 1) as u32);
    let b = rand(y, 2, k as u32);
    let d_clamped: usize = if (d as usize) <= k {
        d as usize
    } else {
        k
    };
    Some((d_clamped, a, b))
}

/// Produces the triples of one source block.
pub struct DegreeGenerator {
    pub k: usize,
}

impl DegreeGenerator {
    /// A generator for blocks of `k` source symbols.
    pub fn new(k: usize) -> (r: Self)
        ensures
            r.k == k,
    {
        DegreeGenerator { k }
    }

    /// The triple (d, a, b) for `k` source symbols and identifier `x`.
    pub fn generate_triple(&self, k: usize, x: u32) -> (r: Option<(usize, u32, u32)>)
        ensures
            r == triple_spec(k, x),
    {
        triple(k, x)
    }
}

} // verus!
