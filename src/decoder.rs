//! The decoder: it gathers encoding symbols by identifier, solves the pre-code
//! together with their LT rows, and regenerates the source symbols.
use vstd::prelude::*;
use crate::fountain::{
    encoding_symbol, precode_system_rhs, precode_system_rows, source_symbols_of, Block, Encoder,
};
use crate::gf2::{
    all_len, apply_row, copy_vec, is_solution, rows_len, satisfies, solve_system, solves,
    unique_solution, views, zero_vec, zeros,
};
use crate::precode::{lt_row, lt_row_spec, precode_row, precode_rows, CodeParams};
use crate::systematic::systematic_index_spec;

verus! {

/// Received rows beyond K after which a system without a unique solution is
/// reported as unsolvable rather than as waiting for more symbols.
pub const SAFETY_MARGIN: usize = 20;

/// Why a decoder could not be built, take a symbol, or finish.
#[derive(Debug)]
pub enum DecoderError {
    /// A symbol whose length is not the symbol size; or a zero symbol size.
    InvalidBlockSize(usize),
    /// A symbol count for which the code is not defined.
    InvalidBlockCount(usize),
    /// More than K + SAFETY_MARGIN symbols arrived and the system still has
    /// no unique solution.
    SystemNotSolvable,
}

/// The concatenation of the first `n` strings of `d`.
pub open spec fn concat(d: Seq<Seq<u8>>, n: nat) -> Seq<u8>
    decreases n,
{
    if n == 0 {
        Seq::empty()
    } else {
        concat(d, (n - 1) as nat) + d[n - 1]
    }
}

/// Decoder of one source block.
pub struct Decoder {
    pub params: CodeParams,
    pub block_size: usize,
    /// The S + H pre-code rows.
    pub precode: Vec<Vec<u8>>,
    /// Identifiers of the symbols received so far, each once.
    pub esis: Vec<u32>,
    /// The payloads, in the order of `esis`.
    pub payloads: Vec<Vec<u8>>,
    /// The intermediate symbols, once solved.
    pub intermediate: Option<Vec<Vec<u8>>>,
    /// The source symbols, once solved.
    pub decoded: Option<Vec<Vec<u8>>>,
}

impl Decoder {
    pub open spec fn wf(&self) -> bool {
        &&& self.params.wf()
        &&& self.block_size > 0
        &&& self.precode.len() == self.params.s + self.params.h
        &&& forall|i: int|
            0 <= i < self.precode.len() ==> (#[trigger] self.precode@[i])@ == precode_row(
                self.params,
                i as nat,
            )
        &&& self.esis.len() == self.payloads.len()
        &&& forall|i: int, j: int|
            0 <= i < j < self.esis.len() ==> self.esis@[i] != self.esis@[j]
        &&& rows_len(self.payloads@, self.block_size as nat)
        &&& self.decoded.is_some() == self.intermediate.is_some()
        &&& self.decoded.is_some() ==> self.solved_wf()
    }

    /// What holds once solved: the intermediate symbols meet every pre-code
    /// row and every received symbol, and each decoded symbol is its LT row
    /// applied to them.
    pub open spec fn solved_wf(&self) -> bool {
        let c = views(self.intermediate.unwrap()@);
        let t = self.block_size as nat;
        &&& self.intermediate.unwrap().len() == self.params.l
        &&& all_len(c, t)
        &&& forall|i: nat|
            i < self.params.s + self.params.h ==> satisfies(
                #[trigger] precode_row(self.params, i),
                c,
                t,
                zeros(t),
            )
        &&& forall|i: int|
            0 <= i < self.esis.len() ==> satisfies(
                lt_row_spec(self.params, #[trigger] self.esis@[i]),
                c,
                t,
                self.payloads@[i]@,
            )
        &&& self.decoded.unwrap().len() == self.params.k
        &&& forall|x: int|
            0 <= x < self.params.k ==> (#[trigger] self.decoded.unwrap()@[x])@ == encoding_symbol(
                self.params,
                c,
                t,
                x as u32,
            )
    }

    /// A decoder for `source_block_count` source symbols of `block_size` bytes.
    pub fn new(source_block_count: usize, block_size: usize) -> (r: Result<Self, DecoderError>)
        ensures
            r matches Err(DecoderError::InvalidBlockCount(n)) <==> systematic_index_spec(
                source_block_count,
            ).is_none(),
            r matches Err(DecoderError::InvalidBlockCount(n)) ==> n == source_block_count,
            r matches Err(DecoderError::InvalidBlockSize(n)) <==> (systematic_index_spec(
                source_block_count,
            ).is_some() && block_size == 0),
            r matches Err(DecoderError::InvalidBlockSize(n)) ==> n == 0,
            !(r matches Err(DecoderError::SystemNotSolvable)),
            r matches Ok(d) ==> {
                &&& d.wf()
                &&& d.params.k == source_block_count
                &&& d.block_size == block_size
                &&& d.esis.len() == 0
                &&& d.decoded.is_none()
            },
    {
        let params = match CodeParams::new(source_block_count) {
            None => {
                return Err(DecoderError::InvalidBlockCount(source_block_count));
            },
            Some(p) => p,
        };
        if block_size == 0 {
            return Err(DecoderError::InvalidBlockSize(block_size));
        }
        let precode = precode_rows(&params);
        Ok(Decoder {
            params,
            block_size,
            precode,
            esis: Vec::new(),
            payloads: Vec::new(),
            intermediate: None,
            decoded: None,
        })
    }

    /// The equations the received symbols give: the pre-code rows, then the
    /// LT row of each received identifier.
    pub open spec fn received_rows(&self) -> Seq<Seq<u8>> {
        Seq::new((self.params.s + self.params.h) as nat, |i: int| precode_row(self.params, i as nat))
            + Seq::new(self.esis.len() as nat, |i: int| lt_row_spec(self.params, self.esis@[i]))
    }

    /// Their right-hand sides: zeros for the pre-code, then the payloads.
    pub open spec fn received_rhs(&self) -> Seq<Seq<u8>> {
        Seq::new((self.params.s + self.params.h) as nat, |i: int| zeros(self.block_size as nat))
            + views(self.payloads@)
    }

    /// Whether a symbol with identifier `esi` has been received.
    pub open spec fn has_esi(&self, esi: u32) -> bool {
        exists|i: int| 0 <= i < self.esis.len() && self.esis@[i] == esi
    }

    /// Receives encoding symbol `sequence` with the payload `block.data`.
    /// A symbol already received, or one that arrives after decoding is
    /// complete, changes nothing.
    pub fn add_block(&mut self, block: Block, sequence: u32) -> (r: Result<(), DecoderError>)
        requires
            old(self).wf(),
        ensures
            final(self).wf(),
            block.data@.len() != old(self).block_size ==> (r matches Err(
                DecoderError::InvalidBlockSize(n),
            ) && n == block.data@.len() && *final(self) == *old(self)),
            block.data@.len() == old(self).block_size ==> r is Ok,
            old(self).has_esi(sequence) || old(self).decoded.is_some() ==> *final(self) == *old(
                self,
            ),
            block.data@.len() == old(self).block_size && !old(self).has_esi(sequence)
                && old(self).decoded.is_none() ==> {
                &&& final(self).esis@ == old(self).esis@.push(sequence)
                &&& views(final(self).payloads@) == views(old(self).payloads@).push(block.data@)
                &&& final(self).params == old(self).params
                &&& final(self).block_size == old(self).block_size
                &&& final(self).precode == old(self).precode
                &&& final(self).decoded.is_none()
            },
    {
        if block.data.len() != self.block_size {
            return Err(DecoderError::InvalidBlockSize(block.data.len()));
        }
        if self.decoded.is_some() {
            return Ok(());
        }
        let mut i: usize = 0;
        while i < self.esis.len()
            invariant
                *self == *old(self),
                self.wf(),
                self.decoded.is_none(),
                block.data@.len() == self.block_size,
                i <= self.esis.len(),
                forall|j: int| 0 <= j < i ==> self.esis@[j] != sequence,
            decreases self.esis.len() - i,
        {
            if self.esis[i] == sequence {
                return Ok(());
            }
            i = i + 1;
        }
        let ghost old_payloads = self.payloads@;
        self.esis.push(sequence);
        self.payloads.push(block.data);
        proof {
            assert(views(self.payloads@) =~= views(old_payloads).push(block.data@));
        }
        Ok(())
    }

    /// Tries to solve for the source symbols with what has been received.
    /// `Ok(true)`: solved; `Ok(false)`: more symbols are needed.
    #[verifier::rlimit(60)]
    pub fn try_decode(&mut self) -> (r: Result<bool, DecoderError>)
        requires
            old(self).wf(),
        ensures
            final(self).wf(),
            old(self).decoded.is_some() ==> r == Ok::<bool, DecoderError>(true) && *final(self)
                == *old(self),
            r == Ok::<bool, DecoderError>(true) ==> final(self).decoded.is_some(),
            r != Ok::<bool, DecoderError>(true) ==> *final(self) == *old(self),
            r matches Err(e) ==> e is SystemNotSolvable && old(self).esis.len()
                >= old(self).params.k + SAFETY_MARGIN,
            unique_solution(
                old(self).received_rows(),
                old(self).received_rhs(),
                old(self).params.l as nat,
                old(self).block_size as nat,
            ) ==> r == Ok::<bool, DecoderError>(true),
            old(self).decoded.is_none() && !unique_solution(
                old(self).received_rows(),
                old(self).received_rhs(),
                old(self).params.l as nat,
                old(self).block_size as nat,
            ) ==> if old(self).esis.len() >= old(self).params.k + SAFETY_MARGIN {
                r matches Err(DecoderError::SystemNotSolvable)
            } else {
                r == Ok::<bool, DecoderError>(false)
            },
            old(self).decoded.is_none() && r == Ok::<bool, DecoderError>(true) ==> unique_solution(
                old(self).received_rows(),
                old(self).received_rhs(),
                old(self).params.l as nat,
                old(self).block_size as nat,
            ),
            final(self).esis == old(self).esis && final(self).payloads == old(self).payloads
                && final(self).params == old(self).params && final(self).block_size == old(
                self,
            ).block_size,
    {
        if self.decoded.is_some() {
            return Ok(true);
        }
        let p = self.params;
        let t = self.block_size;
        let n = self.esis.len();
        let mut rows: Vec<Vec<u8>> = Vec::with_capacity(p.l);
        let mut rhs: Vec<Vec<u8>> = Vec::with_capacity(p.l);
        let mut i: usize = 0;
        while i < p.s + p.h
            invariant
                self.wf(),
                p == self.params,
                t == self.block_size,
                i <= p.s + p.h,
                rows.len() == i,
                rhs.len() == i,
                forall|e: int| 0 <= e < i ==> (#[trigger] rows@[e])@ == precode_row(p, e as nat),
                forall|e: int| 0 <= e < i ==> (#[trigger] rhs@[e])@ == zeros(t as nat),
            decreases p.s + p.h - i,
        {
            rows.push(copy_vec(&self.precode[i]));
            rhs.push(zero_vec(t));
            i = i + 1;
        }
        let mut x: usize = 0;
        while x < n
            invariant
                self.wf(),
                p == self.params,
                t == self.block_size,
                n == self.esis.len(),
                x <= n,
                rows.len() == p.s + p.h + x,
                rhs.len() == p.s + p.h + x,
                forall|e: int|
                    0 <= e < p.s + p.h ==> (#[trigger] rows@[e])@ == precode_row(p, e as nat),
                forall|e: int| 0 <= e < p.s + p.h ==> (#[trigger] rhs@[e])@ == zeros(t as nat),
                forall|e: int|
                    0 <= e < x ==> (#[trigger] rows@[p.s + p.h + e])@ == lt_row_spec(
                        p,
                        self.esis@[e],
                    ),
                forall|e: int| 0 <= e < x ==> (#[trigger] rhs@[p.s + p.h + e])@ == self.payloads@[e]@,
            decreases n - x,
        {
            rows.push(lt_row(&p, self.esis[x]));
            rhs.push(copy_vec(&self.payloads[x]));
            x = x + 1;
        }
        proof {
            assert(rows_len(rows@, p.l as nat)) by {
                assert forall|e: int| 0 <= e < rows@.len() implies (#[trigger] rows@[e]).len()
                    == p.l by {
                    if e >= p.s + p.h {
                        let x = e - p.s - p.h;
                        assert(rows@[p.s + p.h + x]@ == lt_row_spec(p, self.esis@[x]));
                        crate::precode::lemma_lt_row_len(p, self.esis@[x]);
                    }
                }
            }
            assert forall|e: int| 0 <= e < rows@.len() implies crate::gf2::is_bits(
                #[trigger] rows@[e]@,
            ) by {
                if e >= p.s + p.h {
                    let x = e - p.s - p.h;
                    assert(rows@[p.s + p.h + x]@ == lt_row_spec(p, self.esis@[x]));
                    crate::precode::lemma_lt_row_bits(p, self.esis@[x]);
                } else {
                    crate::precode::lemma_precode_row_bits(p, e as nat);
                }
            }
            assert(rows_len(rhs@, t as nat)) by {
                assert forall|e: int| 0 <= e < rhs@.len() implies (#[trigger] rhs@[e]).len()
                    == t by {
                    if e >= p.s + p.h {
                        let x = e - p.s - p.h;
                        assert(rhs@[p.s + p.h + x]@ == self.payloads@[x]@);
                    }
                }
            }
        }
        proof {
            assert(views(rows@) =~= self.received_rows()) by {
                assert forall|e: int| 0 <= e < rows@.len() implies views(rows@)[e]
                    == self.received_rows()[e] by {
                    assert(views(rows@)[e] == rows@[e]@);
                    if e >= p.s + p.h {
                        let x = e - p.s - p.h;
                        assert(rows@[p.s + p.h + x]@ == lt_row_spec(p, self.esis@[x]));
                    }
                }
            }
            assert(views(rhs@) =~= self.received_rhs()) by {
                assert forall|e: int| 0 <= e < rhs@.len() implies views(rhs@)[e]
                    == self.received_rhs()[e] by {
                    assert(views(rhs@)[e] == rhs@[e]@);
                    if e >= p.s + p.h {
                        let x = e - p.s - p.h;
                        assert(rhs@[p.s + p.h + x]@ == self.payloads@[x]@);
                        assert(views(self.payloads@)[x] == self.payloads@[x]@);
                    }
                }
            }
        }
        let c = match solve_system(&rows, &rhs, p.l, t, false) {
            None => {
                if n >= p.k + SAFETY_MARGIN {
                    return Err(DecoderError::SystemNotSolvable);
                }
                return Ok(false);
            },
            Some(c) => c,
        };
        let mut d: Vec<Vec<u8>> = Vec::with_capacity(p.k);
        let mut j: usize = 0;
        while j < p.k
            invariant
                p.wf(),
                j <= p.k,
                d.len() == j,
                c.len() == p.l,
                all_len(views(c@), t as nat),
                forall|e: int|
                    0 <= e < j ==> (#[trigger] d@[e])@ == encoding_symbol(
                        p,
                        views(c@),
                        t as nat,
                        e as u32,
                    ),
            decreases p.k - j,
        {
            let row = lt_row(&p, j as u32);
            d.push(apply_row(&row, &c, t));
            j = j + 1;
        }
        proof {
            let cv = views(c@);
            assert forall|i: nat| i < p.s + p.h implies satisfies(
                #[trigger] precode_row(p, i),
                cv,
                t as nat,
                zeros(t as nat),
            ) by {
                assert(views(rows@)[i as int] == rows@[i as int]@);
                assert(views(rhs@)[i as int] == rhs@[i as int]@);
            }
            assert forall|e: int| 0 <= e < self.esis.len() implies satisfies(
                lt_row_spec(p, #[trigger] self.esis@[e]),
                cv,
                t as nat,
                self.payloads@[e]@,
            ) by {
                let f = p.s + p.h + e;
                assert(rows@[p.s + p.h + e]@ == lt_row_spec(p, self.esis@[e]));
                assert(views(rows@)[f] == rows@[f]@);
                assert(views(rhs@)[f] == rhs@[f]@);
            }
        }
        self.intermediate = Some(c);
        self.decoded = Some(d);
        Ok(true)
    }

    /// The K source symbols one after another, once decoding is complete.
    pub fn get_decoded_data(&self) -> (r: Option<Vec<u8>>)
        requires
            self.wf(),
        ensures
            self.decoded.is_none() ==> r.is_none(),
            self.decoded.is_some() ==> (r matches Some(v) && v@ == concat(
                views(self.decoded.unwrap()@),
                self.params.k as nat,
            )),
    {
        match &self.decoded {
            None => None,
            Some(d) => {
                let mut out: Vec<u8> = Vec::new();
                let mut i: usize = 0;
                while i < d.len()
                    invariant
                        i <= d.len(),
                        out@ == concat(views(d@), i as nat),
                    decreases d.len() - i,
                {
                    let mut j: usize = 0;
                    let ghost before = out@;
                    while j < d[i].len()
                        invariant
                            i < d.len(),
                            j <= d@[i as int].len(),
                            out@ == before + d@[i as int]@.subrange(0, j as int),
                        decreases d@[i as int].len() - j,
                    {
                        out.push(d[i][j]);
                        j = j + 1;
                        assert(out@ =~= before + d@[i as int]@.subrange(0, j as int));
                    }
                    assert(d@[i as int]@.subrange(0, j as int) =~= d@[i as int]@);
                    assert(views(d@)[i as int] == d@[i as int]@);
                    i = i + 1;
                }
                Some(out)
            },
        }
    }
}


proof fn lemma_concat_ext(a: Seq<Seq<u8>>, b: Seq<Seq<u8>>, n: nat)
    requires
        n <= a.len(),
        n <= b.len(),
        forall|i: int| 0 <= i < n ==> a[i] == b[i],
    ensures
        concat(a, n) == concat(b, n),
    decreases n,
{
    if n > 0 {
        lemma_concat_ext(a, b, (n - 1) as nat);
    }
}

/// Round trip: when every symbol a decoder received is the encoder's symbol
/// for that identifier, and the identifiers 0 .. K - 1 all arrived, a solved
/// decoder hands back exactly the encoder's source symbols, whatever the
/// order of arrival and whatever else arrived.
pub proof fn lemma_round_trip(enc: Encoder, dec: Decoder)
    requires
        enc.wf(),
        dec.wf(),
        dec.params == enc.params,
        dec.block_size == enc.symbol_size,
        dec.decoded.is_some(),
        forall|x: u32| x < enc.params.k ==> dec.has_esi(x),
        forall|i: int|
            0 <= i < dec.esis.len() ==> (#[trigger] dec.payloads@[i])@ == enc.symbol(
                dec.esis@[i],
            ),
    ensures
        forall|x: int|
            0 <= x < enc.params.k ==> (#[trigger] dec.decoded.unwrap()@[x])@ == enc.source@[x]@,
        concat(views(dec.decoded.unwrap()@), enc.params.k as nat) == concat(
            views(enc.source@),
            enc.params.k as nat,
        ),
{
    let p = enc.params;
    let t = enc.symbol_size as nat;
    let d = dec.decoded.unwrap();
    let c = views(dec.intermediate.unwrap()@);
    assert forall|x: int| 0 <= x < p.k implies (#[trigger] d@[x])@ == enc.source@[x]@ by {
        let xe = x as u32;
        assert(dec.has_esi(xe));
        let i = choose|i: int| 0 <= i < dec.esis.len() && dec.esis@[i] == xe;
        crate::precode::lemma_lt_row_len(p, xe);
        assert(satisfies(lt_row_spec(p, dec.esis@[i]), c, t, dec.payloads@[i]@));
        assert(dec.payloads@[i]@ == enc.symbol(xe));
        assert(satisfies(lt_row_spec(p, xe), views(enc.intermediate@), t, views(enc.source@)[x]));
        assert(views(enc.source@)[x] == enc.source@[x]@);
    }
    assert forall|x: int| 0 <= x < p.k implies views(d@)[x] == views(enc.source@)[x] by {
        assert(views(d@)[x] == d@[x]@);
        assert(views(enc.source@)[x] == enc.source@[x]@);
    }
    lemma_concat_ext(views(d@), views(enc.source@), p.k as nat);
}


/// Cutting `k * t` bytes into `k` symbols of `t` bytes and joining them again
/// gives the bytes back.
pub proof fn lemma_concat_source(data: Seq<u8>, t: nat, k: nat, n: nat)
    requires
        data.len() == k * t,
        n <= k,
    ensures
        concat(source_symbols_of(data, t, k), n) == data.subrange(0, (n * t) as int),
    decreases n,
{
    let s = source_symbols_of(data, t, k);
    if n > 0 {
        let m = (n - 1) as nat;
        lemma_concat_source(data, t, k, m);
        assert(n * t == m * t + t) by (nonlinear_arith)
            requires
                n == m + 1,
        ;
        assert(m * t + t <= k * t) by (nonlinear_arith)
            requires
                m < k,
        ;
        assert(concat(s, n) =~= data.subrange(0, (n * t) as int));
    } else {
        assert(concat(s, 0) =~= data.subrange(0, 0));
    }
}

/// Round trip on bytes: an encoder built from `k * t` bytes, and a decoder
/// that received its symbols for 0 .. K - 1 (and possibly more), decodes to
/// exactly those bytes.
pub proof fn lemma_round_trip_bytes(enc: Encoder, dec: Decoder, data: Seq<u8>)
    requires
        enc.wf(),
        dec.wf(),
        dec.params == enc.params,
        dec.block_size == enc.symbol_size,
        dec.decoded.is_some(),
        forall|x: u32| x < enc.params.k ==> dec.has_esi(x),
        forall|i: int|
            0 <= i < dec.esis.len() ==> (#[trigger] dec.payloads@[i])@ == enc.symbol(
                dec.esis@[i],
            ),
        data.len() == enc.params.k * enc.symbol_size,
        views(enc.source@) == source_symbols_of(
            data,
            enc.symbol_size as nat,
            enc.params.k as nat,
        ),
    ensures
        concat(views(dec.decoded.unwrap()@), enc.params.k as nat) == data,
{
    let k = enc.params.k as nat;
    let t = enc.symbol_size as nat;
    lemma_round_trip(enc, dec);
    lemma_concat_source(data, t, k, k);
    assert(data.subrange(0, (k * t) as int) =~= data);
}


/// Decoding is owed: when the decoder received, among symbols of the
/// encoder, those for 0 .. K - 1, the received equations have exactly one
/// solution, as A(K) C = D' has (so `try_decode` answers `Ok(true)`).
pub proof fn lemma_decoding_owed(enc: Encoder, dec: Decoder)
    requires
        enc.wf(),
        dec.wf(),
        dec.params == enc.params,
        dec.block_size == enc.symbol_size,
        forall|x: u32| x < enc.params.k ==> dec.has_esi(x),
        forall|i: int|
            0 <= i < dec.esis.len() ==> (#[trigger] dec.payloads@[i])@ == enc.symbol(
                dec.esis@[i],
            ),
    ensures
        unique_solution(
            dec.received_rows(),
            dec.received_rhs(),
            enc.params.l as nat,
            enc.symbol_size as nat,
        ),
{
    let p = enc.params;
    let t = enc.symbol_size as nat;
    let l = p.l as nat;
    let ra = precode_system_rows(p);
    let sa = precode_system_rhs(p, views(enc.source@), t);
    let rd = dec.received_rows();
    let sd = dec.received_rhs();
    let ce = views(enc.intermediate@);
    let sh = p.s + p.h;
    // the encoder's intermediate symbols solve A(K) C = D'
    assert forall|i: int| 0 <= i < ra.len() implies satisfies(#[trigger] ra[i], ce, t, sa[i]) by {
        if i < sh {
            assert(ra[i] == precode_row(p, i as nat));
            assert(sa[i] == zeros(t));
        } else {
            let x = i - sh;
            assert(ra[i] == lt_row_spec(p, x as u32));
            assert(sa[i] == views(enc.source@)[x]);
        }
    }
    assert(is_solution(ra, sa, ce, l, t));
    // they solve the received equations
    assert forall|i: int| 0 <= i < rd.len() implies satisfies(#[trigger] rd[i], ce, t, sd[i]) by {
        if i < sh {
            assert(rd[i] == precode_row(p, i as nat));
            assert(sd[i] == zeros(t));
        } else {
            let e = i - sh;
            assert(rd[i] == lt_row_spec(p, dec.esis@[e]));
            assert(sd[i] == views(dec.payloads@)[e]);
            assert(views(dec.payloads@)[e] == dec.payloads@[e]@);
            crate::precode::lemma_lt_row_len(p, dec.esis@[e]);
        }
    }
    assert(is_solution(rd, sd, ce, l, t));
    // any solution of the received equations solves A(K) C = D'
    assert forall|c1: Seq<Seq<u8>>| #[trigger] is_solution(rd, sd, c1, l, t) implies c1 == ce by {
        assert forall|i: int| 0 <= i < ra.len() implies satisfies(#[trigger] ra[i], c1, t, sa[i]) by {
            if i < sh {
                assert(ra[i] == precode_row(p, i as nat));
                assert(rd[i] == precode_row(p, i as nat));
                assert(satisfies(rd[i], c1, t, sd[i]));
            } else {
                let x = (i - sh) as u32;
                assert(dec.has_esi(x));
                let e = choose|e: int| 0 <= e < dec.esis.len() && dec.esis@[e] == x;
                assert(satisfies(rd[sh + e], c1, t, sd[sh + e]));
                assert(rd[sh + e] == lt_row_spec(p, x));
                assert(views(dec.payloads@)[e] == dec.payloads@[e]@);
                crate::precode::lemma_lt_row_len(p, x);
                assert(satisfies(lt_row_spec(p, x), ce, t, views(enc.source@)[x as int]));
                assert(ra[i] == lt_row_spec(p, x));
                assert(sa[i] == views(enc.source@)[x as int]);
            }
        }
        assert(is_solution(ra, sa, c1, l, t));
    }
}

} // verus!
