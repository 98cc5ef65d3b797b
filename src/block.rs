//! Transfer parameters: how a transfer of F bytes is cut into source blocks,
//! symbols and sub-blocks.
use vstd::prelude::*;
use crate::fountain::{cut_symbols, source_symbols_of, symbol_count};
use crate::gf2::views;
use crate::systematic::KMAX;

verus! {

/// Why transfer parameters or a source block could not be made.
#[derive(Debug)]
pub enum BlockError {
    /// Alignment zero, payload not a multiple of it, a zero size, or T = 0.
    InvalidParameters,
    /// A count does not fit the machine's word.
    TransferTooLarge,
}

/// ceil(a / b) for b > 0.
pub open spec fn ceil_div(a: int, b: int) -> int {
    (a + b - 1) / b
}

pub open spec fn min_int(a: int, b: int) -> int {
    if a <= b {
        a
    } else {
        b
    }
}

/// G: symbols per packet.
pub open spec fn spec_g(f: int, p: int, al: int, gmax: int) -> int {
    min_int(min_int(ceil_div(p * 1024, f), p / al), gmax)
}

/// T: the symbol size.
pub open spec fn spec_t(f: int, p: int, al: int, gmax: int) -> int {
    (p / (al * spec_g(f, p, al, gmax))) * al
}

/// Kt: source symbols in the whole transfer.
pub open spec fn spec_kt(f: int, p: int, al: int, gmax: int) -> int {
    ceil_div(f, spec_t(f, p, al, gmax))
}

/// Z: source blocks.
pub open spec fn spec_z(f: int, p: int, al: int, gmax: int) -> int {
    ceil_div(spec_kt(f, p, al, gmax), KMAX as int)
}

/// N: sub-blocks per source block.
pub open spec fn spec_n(f: int, w: int, p: int, al: int, gmax: int) -> int {
    let t = spec_t(f, p, al, gmax);
    min_int(ceil_div(ceil_div(spec_kt(f, p, al, gmax), spec_z(f, p, al, gmax)) * t, w), t / al)
}

/// The inputs are out of range: alignment zero or not dividing the payload,
/// a zero size, or a zero symbol size.
pub open spec fn params_invalid(f: int, w: int, p: int, al: int, gmax: int) -> bool {
    al == 0 || p % al != 0 || f == 0 || p == 0 || w == 0 || gmax == 0 || spec_t(f, p, al, gmax)
        == 0
}

/// Transfer parameters.
pub struct BlockParameters {
    /// F, the transfer length in bytes.
    pub transfer_length: u64,
    /// A, the symbol alignment in bytes.
    pub alignment: usize,
    /// T, the symbol size in bytes, a multiple of A.
    pub symbol_size: usize,
    /// Z, the number of source blocks.
    pub num_blocks: usize,
    /// N, the number of sub-blocks per source block.
    pub num_subblocks: usize,
}

impl BlockParameters {
    /// The parameters for a transfer of `transfer_length` bytes.
    pub fn new(
        transfer_length: u64,
        target_subblock_size: usize,
        max_payload_size: usize,
        alignment: usize,
        max_symbols_per_packet: usize,
    ) -> (r: Result<Self, BlockError>)
        ensures
            ({
                let f = transfer_length as int;
                let w = target_subblock_size as int;
                let p = max_payload_size as int;
                let al = alignment as int;
                let gm = max_symbols_per_packet as int;
                &&& (r matches Err(BlockError::InvalidParameters)) <==> params_invalid(
                    f,
                    w,
                    p,
                    al,
                    gm,
                )
                &&& (r matches Err(BlockError::TransferTooLarge)) <==> (!params_invalid(
                    f,
                    w,
                    p,
                    al,
                    gm,
                ) && (spec_z(f, p, al, gm) > usize::MAX || spec_n(f, w, p, al, gm) > usize::MAX))
                &&& r matches Ok(b) ==> {
                    &&& b.transfer_length == transfer_length
                    &&& b.alignment == alignment
                    &&& b.symbol_size == spec_t(f, p, al, gm)
                    &&& b.num_blocks == spec_z(f, p, al, gm)
                    &&& b.num_subblocks == spec_n(f, w, p, al, gm)
                }
            }),
    {
        let f: u128 = transfer_length as u128;
        let w: u128 = target_subblock_size as u128;
        let p: u128 = max_payload_size as u128;
        let al: u128 = alignment as u128;
        let gm: u128 = max_symbols_per_packet as u128;
        let ghost (fi, wi, pi, ali, gmi) = (f as int, w as int, p as int, al as int, gm as int);
        if al == 0 || p % al != 0 || f == 0 || p == 0 || w == 0 || gm == 0 {
            return Err(BlockError::InvalidParameters);
        }
        let g1: u128 = (p * 1024 + f - 1) / f;
        let g2: u128 = p / al;
        let g12: u128 = if g1 <= g2 {
            g1
        } else {
            g2
        };
        let g: u128 = if g12 <= gm {
            g12
        } else {
            gm
        };
        assert(g == spec_g(fi, pi, ali, gmi));
        assert(1 <= g <= p) by (nonlinear_arith)
            requires
                g == spec_g(fi, pi, ali, gmi),
                g <= g2,
                g2 == (p) as int / (al as int),
                al >= 1,
                p >= 1,
                p % al == 0,
                g1 == ((p * 1024 + f - 1)) as int / (f as int),
                f >= 1,
                gm >= 1,
                g == g1 || g == g2 || g == gm,
        {
            assert(g2 >= 1) by (nonlinear_arith)
                requires
                    g2 == (p) as int / (al as int),
                    p % al == 0,
                    p >= 1,
                    al >= 1,
            {
                vstd::arithmetic::div_mod::lemma_fundamental_div_mod(p as int, al as int);
            }
            assert(g1 >= 1) by (nonlinear_arith)
                requires
                    g1 == ((p * 1024 + f - 1)) as int / (f as int),
                    p >= 1,
                    f >= 1,
            {
                vstd::arithmetic::div_mod::lemma_fundamental_div_mod(
                    (p * 1024 + f - 1) as int,
                    f as int,
                );
            }
            assert(g2 <= p) by (nonlinear_arith)
                requires
                    g2 == (p) as int / (al as int),
                    al >= 1,
                    p >= 0,
            {
                vstd::arithmetic::div_mod::lemma_div_is_ordered_by_denominator(
                    p as int,
                    1,
                    al as int,
                );
            }
        }
        assert(al <= p) by {
            vstd::arithmetic::div_mod::lemma_fundamental_div_mod(p as int, al as int);
            assert(p == al * (p / al)) by (nonlinear_arith)
                requires
                    p == al * (p / al) + p % al,
                    p % al == 0,
            ;
            assert(al * (p / al) >= al) by (nonlinear_arith)
                requires
                    p / al >= 1,
                    al >= 1,
            ;
        }
        assert(al * g <= p * p) by (nonlinear_arith)
            requires
                al <= p,
                g <= p,
                al >= 0,
                g >= 0,
        {
            vstd::arithmetic::mul::lemma_mul_inequality(al as int, p as int, g as int);
            vstd::arithmetic::mul::lemma_mul_inequality(g as int, p as int, p as int);
        }
        assert(al * g >= 1) by (nonlinear_arith)
            requires
                al >= 1,
                g >= 1,
        ;
        assert(p * p <= 0xffff_ffff_ffff_ffff * 0xffff_ffff_ffff_ffff) by (nonlinear_arith)
            requires
                p <= 0xffff_ffff_ffff_ffff,
                p >= 0,
        ;
        let q: u128 = p / (al * g);
        assert(q <= p) by {
            vstd::arithmetic::div_mod::lemma_div_is_ordered_by_denominator(
                p as int,
                1,
                (al * g) as int,
            );
        }
        assert(q * al <= p * p) by (nonlinear_arith)
            requires
                q <= p,
                al <= p,
        {
            vstd::arithmetic::mul::lemma_mul_inequality(q as int, p as int, al as int);
            vstd::arithmetic::mul::lemma_mul_inequality(al as int, p as int, p as int);
        }
        let t: u128 = q * al;
        assert(t == spec_t(fi, pi, ali, gmi));
        if t == 0 {
            return Err(BlockError::InvalidParameters);
        }
        assert(t <= p) by (nonlinear_arith)
            requires
                t == q * al,
                q == (p as int) / ((al * g) as int),
                g >= 1,
                al >= 1,
        {
            vstd::arithmetic::div_mod::lemma_fundamental_div_mod(p as int, (al * g) as int);
            assert(q * (al * g) <= p);
            assert(q * al <= q * (al * g)) by (nonlinear_arith)
                requires
                    g >= 1,
                    al >= 1,
                    q >= 0,
            ;
        }
        let kt: u128 = (f + t - 1) / t;
        assert(kt <= f) by (nonlinear_arith)
            requires
                kt == ((f + t - 1)) as int / (t as int),
                t >= 1,
                f >= 1,
        {
            vstd::arithmetic::div_mod::lemma_fundamental_div_mod((f + t - 1) as int, t as int);
        }
        let z: u128 = (kt + 255) / 256;
        assert(z == spec_z(fi, pi, ali, gmi));
        assert(kt >= 1) by (nonlinear_arith)
            requires
                kt == ((f + t - 1)) as int / (t as int),
                t >= 1,
                f >= 1,
        ;
        assert(z >= 1);
        let kz: u128 = (kt + z - 1) / z;
        assert(kz <= kt) by (nonlinear_arith)
            requires
                kz == ((kt + z - 1)) as int / (z as int),
                z >= 1,
                kt >= 1,
        {
            vstd::arithmetic::div_mod::lemma_fundamental_div_mod((kt + z - 1) as int, z as int);
        }
        assert(kz * t <= 0xffff_ffff_ffff_ffff * 0xffff_ffff_ffff_ffff) by (nonlinear_arith)
            requires
                kz <= kt,
                kt <= f,
                f <= 0xffff_ffff_ffff_ffff,
                t <= p,
                p <= 0xffff_ffff_ffff_ffff,
        {
            vstd::arithmetic::mul::lemma_mul_inequality(kz as int, 0xffff_ffff_ffff_ffff, t as int);
            vstd::arithmetic::mul::lemma_mul_inequality(
                t as int,
                0xffff_ffff_ffff_ffff,
                0xffff_ffff_ffff_ffff,
            );
        }
        let bytes: u128 = kz * t;
        let n1: u128 = (bytes + w - 1) / w;
        let n2: u128 = t / al;
        let n: u128 = if n1 <= n2 {
            n1
        } else {
            n2
        };
        assert(n == spec_n(fi, wi, pi, ali, gmi));
        if z > usize::MAX as u128 || n > usize::MAX as u128 {
            return Err(BlockError::TransferTooLarge);
        }
        assert(t <= usize::MAX);
        Ok(BlockParameters {
            transfer_length,
            alignment,
            symbol_size: t as usize,
            num_blocks: z as usize,
            num_subblocks: n as usize,
        })
    }

    /// Kt = ceil(F / T), the number of source symbols in the transfer.
    pub fn source_symbol_count(&self) -> (r: u64)
        requires
            self.symbol_size > 0,
        ensures
            r == ceil_div(self.transfer_length as int, self.symbol_size as int),
    {
        let f = self.transfer_length as u128;
        let t = self.symbol_size as u128;
        let r: u128 = (f + t - 1) / t;
        assert(r <= f) by (nonlinear_arith)
            requires
                r == ((f + t - 1)) as int / (t as int),
                t >= 1,
        {
            if f >= 1 {
                vstd::arithmetic::div_mod::lemma_fundamental_div_mod((f + t - 1) as int, t as int);
            } else {
                vstd::arithmetic::div_mod::lemma_fundamental_div_mod((t - 1) as int, t as int);
            }
        }
        r as u64
    }
}

/// A source block cut into symbols, and each symbol into sub-symbols.
pub struct SourceBlock {
    pub number: usize,
    pub symbols: Vec<Vec<u8>>,
    /// `sub_blocks[b][s]` is part `b` of symbol `s`.
    pub sub_blocks: Vec<Vec<Vec<u8>>>,
}

impl SourceBlock {
    /// Cuts `data` into symbols of T bytes, the last padded with zeros, and
    /// each symbol into N sub-symbols of floor(T / N) bytes.
    pub fn new(data: &[u8], block_number: usize, params: &BlockParameters) -> (r: Result<
        Self,
        BlockError,
    >)
        ensures
            r is Err <==> (params.symbol_size == 0 || params.num_subblocks == 0),
            r matches Err(e) ==> e is InvalidParameters,
            r matches Ok(b) ==> {
                let t = params.symbol_size as nat;
                let ss = (params.symbol_size / params.num_subblocks) as int;
                let k = symbol_count(data@.len(), t);
                &&& b.number == block_number
                &&& views(b.symbols@) == source_symbols_of(data@, t, k)
                &&& b.sub_blocks.len() == params.num_subblocks
                &&& forall|i: int|
                    0 <= i < params.num_subblocks ==> (#[trigger] b.sub_blocks@[i]).len() == k
                &&& forall|i: int, s: int|
                    0 <= i < params.num_subblocks && 0 <= s < k ==> (
                    #[trigger] b.sub_blocks@[i]@[s])@ == b.symbols@[s]@.subrange(
                        i * ss,
                        (i + 1) * ss,
                    )
            },
    {
        let t = params.symbol_size;
        let nsub = params.num_subblocks;
        if t == 0 || nsub == 0 {
            return Err(BlockError::InvalidParameters);
        }
        let k = crate::fountain::symbol_count_exec(data.len(), t);
        let symbols = cut_symbols(data, t, k);
        assert forall|e: int| 0 <= e < k implies (#[trigger] symbols@[e])@.len() == t by {
            assert(views(symbols@)[e] == symbols@[e]@);
        }
        let ss: usize = t / nsub;
        let mut sub_blocks: Vec<Vec<Vec<u8>>> = Vec::with_capacity(nsub);
        let mut i: usize = 0;
        while i < nsub
            invariant
                i <= nsub,
                nsub > 0,
                ss == (t) as int / (nsub as int),
                symbols.len() == k,
                forall|e: int| 0 <= e < k ==> (#[trigger] symbols@[e])@.len() == t,
                sub_blocks.len() == i,
                forall|e: int| 0 <= e < i ==> (#[trigger] sub_blocks@[e]).len() == k,
                forall|e: int, s: int|
                    0 <= e < i && 0 <= s < k ==> (#[trigger] sub_blocks@[e]@[s])@
                        == symbols@[s]@.subrange(e * ss, (e + 1) * ss),
            decreases nsub - i,
        {
            assert((i + 1) * ss <= t) by (nonlinear_arith)
                requires
                    i < nsub,
                    ss == (t) as int / (nsub as int),
                    nsub > 0,
            {
                vstd::arithmetic::div_mod::lemma_fundamental_div_mod(t as int, nsub as int);
                assert((i + 1) * ss <= nsub * ss) by (nonlinear_arith)
                    requires
                        i + 1 <= nsub,
                        ss >= 0,
                ;
            }
            let mut parts: Vec<Vec<u8>> = Vec::with_capacity(k);
            let mut s: usize = 0;
            while s < k
                invariant
                    s <= k,
                    i < nsub,
                    (i + 1) * ss <= t,
                    symbols.len() == k,
                    forall|e: int| 0 <= e < k ==> (#[trigger] symbols@[e])@.len() == t,
                    parts.len() == s,
                    forall|e: int|
                        0 <= e < s ==> (#[trigger] parts@[e])@ == symbols@[e]@.subrange(
                            i * ss,
                            (i + 1) * ss,
                        ),
                decreases k - s,
            {
                assert(i * ss <= (i + 1) * ss) by (nonlinear_arith)
                    requires
                        ss >= 0,
                ;
                assert(i * ss + ss == (i + 1) * ss) by (nonlinear_arith);
                let start: usize = i * ss;
                let end: usize = start + ss;
                let mut part: Vec<u8> = Vec::with_capacity(ss);
                let mut j: usize = start;
                while j < end
                    invariant
                        start <= j <= end,
                        end <= t,
                        s < k,
                        symbols.len() == k,
                        symbols@[s as int]@.len() == t,
                        part@ == symbols@[s as int]@.subrange(start as int, j as int),
                    decreases end - j,
                {
                    part.push(symbols[s][j]);
                    j = j + 1;
                    assert(part@ =~= symbols@[s as int]@.subrange(start as int, j as int));
                }
                parts.push(part);
                s = s + 1;
            }
            sub_blocks.push(parts);
            i = i + 1;
        }
        Ok(SourceBlock { number: block_number, symbols, sub_blocks })
    }

    /// Part `sub_block` of symbol `symbol_index`, if both exist.
    pub fn sub_symbol(&self, symbol_index: usize, sub_block: usize) -> (r: Option<&[u8]>)
        ensures
            (sub_block < self.sub_blocks.len() && symbol_index < self.sub_blocks@[
                sub_block as int
            ].len()) ==> (r matches Some(v) && v@ == self.sub_blocks@[
                sub_block as int
            ]@[symbol_index as int]@),
            !(sub_block < self.sub_blocks.len() && symbol_index < self.sub_blocks@[
                sub_block as int
            ].len()) ==> r.is_none(),
    {
        if sub_block < self.sub_blocks.len() && symbol_index < self.sub_blocks[sub_block].len() {
            Some(self.sub_blocks[sub_block][symbol_index].as_slice())
        } else {
            None
        }
    }
}

} // verus!
