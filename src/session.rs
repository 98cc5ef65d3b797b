//! The receiving side of a transfer as a state machine: each datagram moves a
//! session on and says what became of it. Sockets, time-outs and files belong
//! to the caller.
use vstd::prelude::*;
use crate::decoder::{concat, Decoder, DecoderError, SAFETY_MARGIN};
use crate::fountain::Block;
use crate::gf2::{unique_solution, views};
use crate::systematic::systematic_index_spec;
use crate::transport::{decode_frame, from_be32, HEADER_SIZE};

verus! {

/// Why a datagram was dropped. None of these ends the session.
#[derive(Debug, PartialEq, Eq)]
pub enum SessionError {
    /// Shorter than the frame header.
    MalformedFrame,
    /// Its K differs from that of the session.
    SessionMismatch,
    /// Its payload is empty, or not the session's symbol size.
    InvalidPayloadSize,
}

/// A source block being received: K and T come from its first valid
/// datagram, the byte length from the caller.
pub struct Session {
    pub k: u32,
    pub t: usize,
    /// Declared length of the source block in bytes; decoded output is cut to it.
    pub length: u64,
    pub decoder: Decoder,
    /// Datagrams dropped so far.
    pub dropped: u64,
}

/// What became of one datagram.
#[derive(Debug)]
pub enum Step {
    Dropped(SessionError),
    Accepted,
    /// The block is decoded: its bytes, cut to the declared length.
    Decoded(Vec<u8>),
}

impl Session {
    pub open spec fn wf(&self) -> bool {
        &&& self.decoder.wf()
        &&& self.decoder.params.k == self.k
        &&& self.decoder.block_size == self.t
    }

    /// The received equations have exactly one solution.
    pub open spec fn solvable(&self) -> bool {
        unique_solution(
            self.decoder.received_rows(),
            self.decoder.received_rhs(),
            self.decoder.params.l as nat,
            self.t as nat,
        )
    }
}

/// `x` plus one, saturating.
pub open spec fn bump(x: u64) -> u64 {
    if x == u64::MAX {
        u64::MAX
    } else {
        (x + 1) as u64
    }
}

/// The smaller of two integers.
pub open spec fn min_len(a: int, b: int) -> int {
    if a <= b {
        a
    } else {
        b
    }
}

/// The datagram was dropped, for reason `e`.
pub open spec fn dropped_as(r: Result<Step, DecoderError>, e: SessionError) -> bool {
    match r {
        Ok(Step::Dropped(x)) => x == e,
        _ => false,
    }
}

/// The datagram was dropped.
pub open spec fn is_dropped(r: Result<Step, DecoderError>) -> bool {
    match r {
        Ok(Step::Dropped(_)) => true,
        _ => false,
    }
}

/// The session ended because K has no code.
pub open spec fn bad_count(r: Result<Step, DecoderError>) -> bool {
    match r {
        Err(DecoderError::InvalidBlockCount(_)) => true,
        _ => false,
    }
}

/// The block was decoded.
pub open spec fn is_decoded(r: Result<Step, DecoderError>) -> bool {
    match r {
        Ok(Step::Decoded(_)) => true,
        _ => false,
    }
}

/// The session after a dropped datagram: unchanged but for the count.
pub open spec fn after_drop(old: Option<Session>, new: Option<Session>) -> bool {
    &&& old.is_none() ==> new.is_none()
    &&& old.is_some() ==> new == Some(Session { dropped: bump(old.unwrap().dropped), ..old.unwrap() })
}

proof fn lemma_concat_len(d: Seq<Seq<u8>>, t: nat, n: nat)
    requires
        n <= d.len(),
        crate::gf2::all_len(d, t),
    ensures
        concat(d, n).len() == n * t,
    decreases n,
{
    if n > 0 {
        lemma_concat_len(d, t, (n - 1) as nat);
        assert((n - 1) * t + t == n * t) by (nonlinear_arith);
    }
}

fn count_drop(s: &mut Option<Session>)
    ensures
        after_drop(*old(s), *final(s)),
{
    match s {
        Some(sess) => {
            sess.dropped = if sess.dropped == u64::MAX {
                u64::MAX
            } else {
                sess.dropped + 1
            };
        },
        None => {},
    }
}

/// Moves the session on by one datagram. `length` is the declared byte
/// length of the block, taken when the session opens. Malformed, mismatched
/// and wrong-size datagrams are dropped and counted and change nothing else;
/// an error ends the session: a K without a code when it opens, or a system
/// still without a unique solution after K + SAFETY_MARGIN symbols.
pub fn on_datagram(s: &mut Option<Session>, datagram: &[u8], length: u64) -> (r: Result<
    Step,
    DecoderError,
>)
    requires
        old(s).is_some() ==> old(s).unwrap().wf(),
    ensures
        final(s).is_some() ==> final(s).unwrap().wf(),
        is_dropped(r) ==> after_drop(*old(s), *final(s)),
        r matches Ok(Step::Decoded(v)) ==> {
            &&& final(s).is_some()
            &&& final(s).unwrap().decoder.decoded.is_some()
            &&& v@ == concat(
                views(final(s).unwrap().decoder.decoded.unwrap()@),
                final(s).unwrap().k as nat,
            ).subrange(
                0,
                min_len(final(s).unwrap().length as int, final(s).unwrap().k * final(s).unwrap().t),
            )
        },
        datagram@.len() < HEADER_SIZE ==> r matches Ok(Step::Dropped(SessionError::MalformedFrame)),
        datagram@.len() >= HEADER_SIZE ==> ({
            let k = from_be32(datagram@, 4);
            let esi = from_be32(datagram@, 0);
            let plen = datagram@.len() - HEADER_SIZE;
            &&& plen == 0 ==> dropped_as(r, SessionError::InvalidPayloadSize)
            &&& (old(s).is_none() && plen > 0 && systematic_index_spec(k as usize).is_none()) ==> (
            bad_count(r) && final(s).is_none())
            &&& (old(s).is_none() && plen > 0 && systematic_index_spec(k as usize).is_some()) ==> (
            !is_dropped(r) && final(s).is_some() && final(s).unwrap().k == k && final(s).unwrap().t
                == plen && final(s).unwrap().length == length && final(s).unwrap().dropped == 0
                && final(s).unwrap().decoder.has_esi(esi))
            &&& (old(s).is_some() && plen > 0 && k != old(s).unwrap().k) ==> dropped_as(
                r,
                SessionError::SessionMismatch,
            )
            &&& (old(s).is_some() && plen > 0 && k == old(s).unwrap().k && plen != old(
                s,
            ).unwrap().t) ==> dropped_as(r, SessionError::InvalidPayloadSize)
            &&& (old(s).is_some() && k == old(s).unwrap().k && plen == old(s).unwrap().t) ==> ({
                let o = old(s).unwrap();
                &&& !is_dropped(r)
                &&& final(s).is_some()
                &&& final(s).unwrap().k == o.k && final(s).unwrap().t == o.t
                &&& final(s).unwrap().length == o.length && final(s).unwrap().dropped == o.dropped
                &&& final(s).unwrap().decoder.esis@.len() <= o.decoder.esis@.len() + 1
                &&& (o.decoder.decoded.is_none() && !o.decoder.has_esi(esi))
                    ==> final(s).unwrap().decoder.has_esi(esi)
                &&& o.decoder.has_esi(esi) ==> final(s).unwrap().decoder.esis
                    == o.decoder.esis && final(s).unwrap().decoder.payloads == o.decoder.payloads
            })
        }),
        (final(s).is_some() && !is_dropped(r)) ==> ({
            let x = final(s).unwrap();
            &&& (r is Err) ==> (x.decoder.esis.len() >= x.k + SAFETY_MARGIN && !x.solvable())
            &&& (x.decoder.esis.len() >= x.k && x.solvable()) ==> is_decoded(r)
        }),
{
    let frame = match decode_frame(datagram) {
        Err(_) => {
            count_drop(s);
            return Ok(Step::Dropped(SessionError::MalformedFrame));
        },
        Ok(f) => f,
    };
    let plen = frame.payload.len();
    if plen == 0 {
        count_drop(s);
        return Ok(Step::Dropped(SessionError::InvalidPayloadSize));
    }
    let opening = s.is_none();
    if let Some(sess) = s {
        if frame.k != sess.k {
            count_drop(s);
            return Ok(Step::Dropped(SessionError::SessionMismatch));
        }
        if plen != sess.t {
            count_drop(s);
            return Ok(Step::Dropped(SessionError::InvalidPayloadSize));
        }
    }
    let mut sess = match s.take() {
        None => {
            let decoder = match Decoder::new(frame.k as usize, plen) {
                Err(e) => {
                    return Err(e);
                },
                Ok(d) => d,
            };
            Session { k: frame.k, t: plen, length, decoder, dropped: 0 }
        },
        Some(sess) => sess,
    };
    let esi = frame.esi;
    let ghost before = sess.decoder;
    let added = sess.decoder.add_block(Block::new(frame.payload, esi, 0), esi);
    proof {
        if before.decoded.is_none() && !before.has_esi(esi) {
            let i = sess.decoder.esis@.len() - 1;
            assert(sess.decoder.esis@[i] == esi);
            assert(sess.decoder.has_esi(esi));
        }
    }
    if sess.decoder.esis.len() < sess.k as usize {
        *s = Some(sess);
        return Ok(Step::Accepted);
    }
    match sess.decoder.try_decode() {
        Err(e) => {
            *s = Some(sess);
            Err(e)
        },
        Ok(false) => {
            *s = Some(sess);
            Ok(Step::Accepted)
        },
        Ok(true) => {
            let data = sess.decoder.get_decoded_data().unwrap();
            proof {
                let d = sess.decoder.decoded.unwrap();
                assert(crate::gf2::all_len(views(d@), sess.t as nat)) by {
                    assert forall|j: int| 0 <= j < views(d@).len() implies (#[trigger] views(
                        d@,
                    )[j]).len() == sess.t by {
                        assert(views(d@)[j] == d@[j]@);
                        crate::precode::lemma_lt_row_len(sess.decoder.params, j as u32);
                        let c = views(sess.decoder.intermediate.unwrap()@);
                        crate::gf2::lemma_combine_len(
                            crate::precode::lt_row_spec(sess.decoder.params, j as u32),
                            c,
                            sess.t as nat,
                            sess.decoder.params.l as nat,
                        );
                    }
                }
                lemma_concat_len(views(d@), sess.t as nat, sess.k as nat);
            }
            let total = data.len();
            let keep: usize = if sess.length < total as u64 {
                sess.length as usize
            } else {
                total
            };
            let mut v: Vec<u8> = Vec::with_capacity(keep);
            let mut i: usize = 0;
            while i < keep
                invariant
                    i <= keep,
                    keep <= data@.len(),
                    v@ == data@.subrange(0, i as int),
                decreases keep - i,
            {
                v.push(data[i]);
                i = i + 1;
                assert(v@ =~= data@.subrange(0, i as int));
            }
            *s = Some(sess);
            Ok(Step::Decoded(v))
        },
    }
}

} // verus!
