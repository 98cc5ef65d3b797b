//! The systematic encoder: it solves the pre-code for the intermediate
//! symbols once, then hands out encoding symbols for X = 0, 1, 2, ...
use vstd::prelude::*;
use crate::distribution::{triple, triple_spec};
use crate::gf2::{
    all_len, apply_row, combine, copy_vec, rows_len, satisfies, solve_system, solves,
    unique_solution, views, zero_vec, zeros,
};
use crate::precode::{lt_row, lt_row_spec, precode_row, precode_rows, CodeParams};
use crate::systematic::systematic_index_spec;

verus! {

/// Why an encoder could not be built or could not go on.
#[derive(Debug)]
pub enum FountainError {
    /// The symbol size is zero, larger than the data, or gives a symbol count
    /// outside the supported range.
    InvalidBlockSize(usize),
    /// The pre-code has no unique solution for this symbol count.
    PreCodeSingular,
    /// Every identifier below 2^32 has been handed out.
    SequenceExhausted,
}

/// An encoding symbol with the identifier it was made for and its degree.
#[derive(Debug)]
pub struct Block {
    pub data: Vec<u8>,
    pub seed: u32,
    pub degree: usize,
}

impl Block {
    pub fn new(data: Vec<u8>, seed: u32, degree: usize) -> (r: Self)
        ensures
            r.data@ == data@,
            r.seed == seed,
            r.degree == degree,
    {
        Block { data, seed, degree }
    }

    pub fn data(&self) -> (r: &[u8])
        ensures
            r@ == self.data@,
    {
        self.data.as_slice()
    }

    pub fn seed(&self) -> (r: u32)
        ensures
            r == self.seed,
    {
        self.seed
    }

    pub fn degree(&self) -> (r: usize)
        ensures
            r == self.degree,
    {
        self.degree
    }
}

/// Number of symbols of `t` bytes needed to hold `n` bytes.
pub open spec fn symbol_count(n: nat, t: nat) -> nat {
    if t == 0 {
        0
    } else {
        ((n + t - 1) as int / t as int) as nat
    }
}

/// The `k` source symbols of `t` bytes cut from `data`, the last padded with zeros.
pub open spec fn source_symbols_of(data: Seq<u8>, t: nat, k: nat) -> Seq<Seq<u8>> {
    Seq::new(
        k,
        |i: int|
            Seq::new(
                t,
                |j: int|
                    if i * t + j < data.len() {
                        data[i * t + j]
                    } else {
                        0u8
                    },
            ),
    )
}

/// The intermediate symbols `c` solve A(K) c = D' for source symbols `d`:
/// every pre-code row sums to zero and the LT row of each X < K gives D[X].
pub open spec fn solves_precode(p: CodeParams, c: Seq<Seq<u8>>, t: nat, d: Seq<Seq<u8>>) -> bool {
    &&& forall|i: nat| i < p.s + p.h ==> satisfies(#[trigger] precode_row(p, i), c, t, zeros(t))
    &&& forall|x: u32| x < p.k ==> satisfies(#[trigger] lt_row_spec(p, x), c, t, d[x as int])
}

/// The rows of A(K): the pre-code rows, then the LT rows of 0 .. K - 1.
pub open spec fn precode_system_rows(p: CodeParams) -> Seq<Seq<u8>> {
    Seq::new((p.s + p.h) as nat, |i: int| precode_row(p, i as nat)) + Seq::new(
        p.k as nat,
        |x: int| lt_row_spec(p, x as u32),
    )
}

/// D': zeros for the pre-code rows, then the source symbols.
pub open spec fn precode_system_rhs(p: CodeParams, d: Seq<Seq<u8>>, t: nat) -> Seq<Seq<u8>> {
    Seq::new((p.s + p.h) as nat, |i: int| zeros(t)) + d
}

/// The encoding symbol with identifier `x` over intermediate symbols `c`.
pub open spec fn encoding_symbol(p: CodeParams, c: Seq<Seq<u8>>, t: nat, x: u32) -> Seq<u8> {
    combine(lt_row_spec(p, x), c, t, p.l as nat)
}

/// Encoder of one source block.
pub struct Encoder {
    pub params: CodeParams,
    pub symbol_size: usize,
    pub source: Vec<Vec<u8>>,
    pub intermediate: Vec<Vec<u8>>,
    /// The identifier of the next symbol; 2^32 once all are handed out.
    pub sequence: u64,
}

impl Encoder {
    pub open spec fn wf(&self) -> bool {
        &&& self.params.wf()
        &&& self.symbol_size > 0
        &&& self.source.len() == self.params.k
        &&& all_len(views(self.source@), self.symbol_size as nat)
        &&& self.intermediate.len() == self.params.l
        &&& all_len(views(self.intermediate@), self.symbol_size as nat)
        &&& solves_precode(
            self.params,
            views(self.intermediate@),
            self.symbol_size as nat,
            views(self.source@),
        )
        &&& self.sequence <= 0x1_0000_0000
        &&& unique_solution(
            precode_system_rows(self.params),
            precode_system_rhs(self.params, views(self.source@), self.symbol_size as nat),
            self.params.l as nat,
            self.symbol_size as nat,
        )
    }

    /// The encoding symbol with identifier `x`.
    pub open spec fn symbol(&self, x: u32) -> Seq<u8> {
        encoding_symbol(self.params, views(self.intermediate@), self.symbol_size as nat, x)
    }

    /// An encoder for `data` cut into symbols of `block_size` bytes.
    #[verifier::rlimit(60)]
    pub fn new(data: &[u8], block_size: usize) -> (r: Result<Self, FountainError>)
        ensures
            r matches Err(FountainError::InvalidBlockSize(b)) <==> (block_size == 0 || block_size
                > data@.len() || systematic_index_spec(
                symbol_count(data@.len(), block_size as nat) as usize,
            ).is_none()),
            r matches Err(FountainError::InvalidBlockSize(b)) ==> b == block_size,
            !(r matches Err(FountainError::SequenceExhausted)),
            r matches Err(FountainError::PreCodeSingular) ==> exists|p: CodeParams|
                #![trigger precode_system_rows(p)]
                p.wf() && p.k == symbol_count(data@.len(), block_size as nat) && !unique_solution(
                    precode_system_rows(p),
                    precode_system_rhs(
                        p,
                        source_symbols_of(data@, block_size as nat, p.k as nat),
                        block_size as nat,
                    ),
                    p.l as nat,
                    block_size as nat,
                ),
            r matches Ok(e) ==> {
                &&& e.wf()
                &&& e.params.k == symbol_count(data@.len(), block_size as nat)
                &&& e.symbol_size == block_size
                &&& views(e.source@) == source_symbols_of(
                    data@,
                    block_size as nat,
                    e.params.k as nat,
                )
                &&& e.sequence == 0
            },
    {
        if block_size == 0 || block_size > data.len() {
            return Err(FountainError::InvalidBlockSize(block_size));
        }
        let k = symbol_count_exec(data.len(), block_size);
        let params = match CodeParams::new(k) {
            None => {
                return Err(FountainError::InvalidBlockSize(block_size));
            },
            Some(p) => p,
        };
        let t = block_size;
        let source = cut_symbols(data, t, k);
        let mut rows = precode_rows(&params);
        let mut rhs: Vec<Vec<u8>> = Vec::with_capacity(params.s + params.h + k);
        let mut i: usize = 0;
        while i < params.s + params.h
            invariant
                params.wf(),
                i <= params.s + params.h,
                rhs.len() == i,
                forall|e: int| 0 <= e < i ==> (#[trigger] rhs@[e])@ == zeros(t as nat),
            decreases params.s + params.h - i,
        {
            rhs.push(zero_vec(t));
            i = i + 1;
        }
        let mut x: usize = 0;
        while x < k
            invariant
                params.wf(),
                params.k == k,
                x <= k,
                source.len() == k,
                all_len(views(source@), t as nat),
                rows.len() == params.s + params.h + x,
                rhs.len() == params.s + params.h + x,
                forall|e: int|
                    0 <= e < params.s + params.h ==> (#[trigger] rows@[e])@ == precode_row(
                        params,
                        e as nat,
                    ),
                forall|e: int| 0 <= e < params.s + params.h ==> (#[trigger] rhs@[e])@ == zeros(t as nat),
                forall|e: int|
                    0 <= e < x ==> (#[trigger] rows@[params.s + params.h + e])@ == lt_row_spec(
                        params,
                        e as u32,
                    ),
                forall|e: int|
                    0 <= e < x ==> (#[trigger] rhs@[params.s + params.h + e])@ == source@[e]@,
            decreases k - x,
        {
            rows.push(lt_row(&params, x as u32));
            assert(views(source@)[x as int] == source@[x as int]@);
            rhs.push(copy_vec(&source[x]));
            x = x + 1;
        }
        proof {
            assert(rows_len(rows@, params.l as nat)) by {
                assert forall|e: int| 0 <= e < rows@.len() implies (#[trigger] rows@[e]).len()
                    == params.l by {
                    if e >= params.s + params.h {
                        let x = e - params.s - params.h;
                        assert(rows@[params.s + params.h + x]@ == lt_row_spec(params, x as u32));
                        crate::precode::lemma_lt_row_len(params, x as u32);
                    }
                }
            }
            assert forall|e: int| 0 <= e < rows@.len() implies crate::gf2::is_bits(
                #[trigger] rows@[e]@,
            ) by {
                if e >= params.s + params.h {
                    let x = e - params.s - params.h;
                    assert(rows@[params.s + params.h + x]@ == lt_row_spec(params, x as u32));
                    crate::precode::lemma_lt_row_bits(params, x as u32);
                } else {
                    crate::precode::lemma_precode_row_bits(params, e as nat);
                }
            }
            assert(rows_len(rhs@, t as nat)) by {
                assert forall|e: int| 0 <= e < rhs@.len() implies (#[trigger] rhs@[e]).len()
                    == t by {
                    if e >= params.s + params.h {
                        let x = e - params.s - params.h;
                        assert(rhs@[params.s + params.h + x]@ == source@[x]@);
                        assert(views(source@)[x] == source@[x]@);
                    }
                }
            }
        }
        proof {
            assert(views(rows@) =~= precode_system_rows(params)) by {
                assert forall|e: int| 0 <= e < rows@.len() implies views(rows@)[e]
                    == precode_system_rows(params)[e] by {
                    assert(views(rows@)[e] == rows@[e]@);
                    if e >= params.s + params.h {
                        let x = e - params.s - params.h;
                        assert(rows@[params.s + params.h + x]@ == lt_row_spec(params, x as u32));
                    }
                }
            }
            assert(views(rhs@) =~= precode_system_rhs(params, views(source@), t as nat)) by {
                assert forall|e: int| 0 <= e < rhs@.len() implies views(rhs@)[e]
                    == precode_system_rhs(params, views(source@), t as nat)[e] by {
                    assert(views(rhs@)[e] == rhs@[e]@);
                    if e >= params.s + params.h {
                        let x = e - params.s - params.h;
                        assert(rhs@[params.s + params.h + x]@ == source@[x]@);
                        assert(views(source@)[x] == source@[x]@);
                    }
                }
            }
        }
        let c = match solve_system(&rows, &rhs, params.l, t, false) {
            None => {
                assert(precode_system_rows(params) == views(rows@));
                return Err(FountainError::PreCodeSingular);
            },
            Some(c) => c,
        };
        proof {
            let cv = views(c@);
            assert forall|i: nat| i < params.s + params.h implies satisfies(
                #[trigger] precode_row(params, i),
                cv,
                t as nat,
                zeros(t as nat),
            ) by {
                assert(views(rows@)[i as int] == rows@[i as int]@);
                assert(views(rhs@)[i as int] == rhs@[i as int]@);
            }
            assert forall|x: u32| x < params.k implies satisfies(
                #[trigger] lt_row_spec(params, x),
                cv,
                t as nat,
                views(source@)[x as int],
            ) by {
                let e = params.s + params.h + x;
                assert(rows@[params.s + params.h + (x as int)]@ == lt_row_spec(params, x));
                assert(views(rows@)[e] == rows@[e]@);
                assert(views(rhs@)[e] == rhs@[e]@);
                assert(views(source@)[x as int] == source@[x as int]@);
            }
        }
        Ok(Encoder { params, symbol_size: t, source, intermediate: c, sequence: 0 })
    }

    /// The encoding symbol with identifier `esi`; below K it is source symbol `esi`.
    pub fn encode_symbol(&self, esi: u32) -> (r: Vec<u8>)
        requires
            self.wf(),
        ensures
            r@ == self.symbol(esi),
            esi < self.params.k ==> r@ == self.source@[esi as int]@,
    {
        let row = lt_row(&self.params, esi);
        proof {
            if esi < self.params.k {
                assert(satisfies(
                    lt_row_spec(self.params, esi),
                    views(self.intermediate@),
                    self.symbol_size as nat,
                    views(self.source@)[esi as int],
                ));
                assert(views(self.source@)[esi as int] == self.source@[esi as int]@);
            }
        }
        apply_row(&row, &self.intermediate, self.symbol_size)
    }

    /// The next encoding symbol, for identifier `sequence`, which then moves on by one.
    pub fn next_block(&mut self) -> (r: Result<Block, FountainError>)
        requires
            old(self).wf(),
        ensures
            final(self).wf(),
            old(self).sequence <= u32::MAX ==> (r matches Ok(b) && b.seed == old(self).sequence
                && b.data@ == old(self).symbol(b.seed) && b.degree == triple_spec(
                old(self).params.k,
                b.seed,
            ).unwrap().0 && *final(self) == (Encoder {
                sequence: (old(self).sequence + 1) as u64,
                ..*old(self)
            })),
            old(self).sequence > u32::MAX ==> (r matches Err(FountainError::SequenceExhausted)
                && *final(self) == *old(self)),
    {
        if self.sequence > u32::MAX as u64 {
            return Err(FountainError::SequenceExhausted);
        }
        let x = self.sequence as u32;
        let data = self.encode_symbol(x);
        let degree = triple(self.params.k, x).unwrap().0;
        self.sequence = self.sequence + 1;
        Ok(Block::new(data, x, degree))
    }

    /// Source symbol `index`, if there is one.
    pub fn source_symbol(&self, index: usize) -> (r: Option<&[u8]>)
        ensures
            index < self.source.len() ==> (r matches Some(s) && s@ == self.source@[index as int]@),
            index >= self.source.len() ==> r.is_none(),
    {
        if index < self.source.len() {
            Some(self.source[index].as_slice())
        } else {
            None
        }
    }

    /// K, the number of source symbols.
    pub fn source_symbols_count(&self) -> (r: usize)
        ensures
            r == self.params.k,
    {
        self.params.k
    }

    /// T, the size of each symbol in bytes.
    pub fn symbol_size(&self) -> (r: usize)
        ensures
            r == self.symbol_size,
    {
        self.symbol_size
    }
}

/// ceil(n / t): symbols of `t` bytes needed for `n` bytes.
pub fn symbol_count_exec(n: usize, t: usize) -> (r: usize)
    requires
        t > 0,
    ensures
        r == symbol_count(n as nat, t as nat),
        r <= n,
{
    let ghost ni: int = n as int;
    let ghost b: int = t as int;
    assert(ni % b != 0 ==> ni / b < ni) by (nonlinear_arith)
        requires
            b > 0,
            ni >= 0,
    {
        if ni % b != 0 {
            assert(b >= 2);
            vstd::arithmetic::div_mod::lemma_fundamental_div_mod(ni, b);
        }
    }
    assert(ni / b <= ni) by {
        vstd::arithmetic::div_mod::lemma_div_is_ordered_by_denominator(ni, 1, b);
    }
    let k: usize = n / t + if n % t != 0 {
        1
    } else {
        0
    };
    assert(k == symbol_count(n as nat, t as nat)) by (nonlinear_arith)
        requires
            k == ni / b + if ni % b != 0 {
                1int
            } else {
                0int
            },
            b == t,
            ni == n,
            t > 0,
    {
        vstd::arithmetic::div_mod::lemma_fundamental_div_mod(ni, b);
    }
    k
}

/// The `k` source symbols of `t` bytes in `data`, the last padded with zeros.
pub fn cut_symbols(data: &[u8], t: usize, k: usize) -> (r: Vec<Vec<u8>>)
    requires
        t > 0,
    ensures
        r.len() == k,
        views(r@) == source_symbols_of(data@, t as nat, k as nat),
        all_len(views(r@), t as nat),
{
    let mut out: Vec<Vec<u8>> = Vec::with_capacity(k);
    let mut i: usize = 0;
    while i < k
        invariant
            i <= k,
            t > 0,
            out.len() == i,
            forall|e: int|
                0 <= e < i ==> (#[trigger] out@[e])@ == source_symbols_of(data@, t as nat, k as nat)[e],
        decreases k - i,
    {
        let mut sym: Vec<u8> = Vec::with_capacity(t);
        let mut j: usize = 0;
        while j < t
            invariant
                i < k,
                j <= t,
                sym@ == source_symbols_of(data@, t as nat, k as nat)[i as int].subrange(0, j as int),
            decreases t - j,
        {
            assert((i as int) * (t as int) + (j as int) <= 0xffff_ffff_ffff_ffffint
                * 0xffff_ffff_ffff_ffffint + 0xffff_ffff_ffff_ffffint) by (nonlinear_arith)
                requires
                    i <= 0xffff_ffff_ffff_ffff,
                    t <= 0xffff_ffff_ffff_ffff,
                    j < t,
            ;
            let idx: u128 = (i as u128) * (t as u128) + (j as u128);
            let v: u8 = if idx < data.len() as u128 {
                data[idx as usize]
            } else {
                0
            };
            sym.push(v);
            j = j + 1;
            assert(sym@ =~= source_symbols_of(data@, t as nat, k as nat)[i as int].subrange(
                0,
                j as int,
            ));
        }
        assert(sym@ =~= source_symbols_of(data@, t as nat, k as nat)[i as int]);
        out.push(sym);
        i = i + 1;
    }
    assert(views(out@) =~= source_symbols_of(data@, t as nat, k as nat));
    out
}

} // verus!
