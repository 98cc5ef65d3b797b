//! The wire format of a datagram and the decisions of the sender's rate
//! limiter. Sockets, clocks and sleeping belong to the caller.
use vstd::prelude::*;

verus! {

/// Bytes of the frame header: ESI, K and sequence, 4 bytes each.
pub const HEADER_SIZE: usize = 12;

/// Why a datagram was not accepted.
#[derive(Debug)]
pub enum TransportError {
    /// Shorter than the header.
    MalformedFrame,
}

/// The four bytes of `x`, most significant first.
pub open spec fn be32(x: u32) -> Seq<u8> {
    seq![
        ((x as int / 16777216) % 256) as u8,
        ((x as int / 65536) % 256) as u8,
        ((x as int / 256) % 256) as u8,
        (x as int % 256) as u8,
    ]
}

/// The number whose bytes, most significant first, are b[at .. at + 4].
pub open spec fn from_be32(b: Seq<u8>, at: int) -> u32 {
    (b[at] as int * 16777216 + b[at + 1] as int * 65536 + b[at + 2] as int * 256 + b[at
        + 3] as int) as u32
}

/// The frame for (esi, k, seq) and a payload.
pub open spec fn frame_bytes(esi: u32, k: u32, seq: u32, payload: Seq<u8>) -> Seq<u8> {
    be32(esi) + be32(k) + be32(seq) + payload
}

/// A datagram taken apart.
#[derive(Debug)]
pub struct Frame {
    pub esi: u32,
    pub k: u32,
    pub seq: u32,
    pub payload: Vec<u8>,
}

fn push_be32(out: &mut Vec<u8>, x: u32)
    ensures
        final(out)@ == old(out)@ + be32(x),
{
    out.push((x / 16777216) as u8);
    out.push(((x / 65536) % 256) as u8);
    out.push(((x / 256) % 256) as u8);
    out.push((x % 256) as u8);
    assert(final(out)@ =~= old(out)@ + be32(x));
}

#[verifier::external_type_specification]
#[verifier::external_body]
pub struct ExBytesMut(bytes::BytesMut);

/// The bytes a `BytesMut` holds.
pub uninterp spec fn buffer_contents(b: bytes::BytesMut) -> Seq<u8>;

/// Relies on `bytes::BytesMut::with_capacity`: a buffer holding no bytes.
/// It panics on a capacity above `isize::MAX`, which `requires` rules out.
#[verifier::external_body]
fn new_buffer(capacity: usize) -> (r: bytes::BytesMut)
    requires
        capacity <= isize::MAX,
    ensures
        buffer_contents(r) == Seq::<u8>::empty(),
{
    bytes::BytesMut::with_capacity(capacity)
}

/// Relies on `bytes::BytesMut::extend_from_slice`: the slice is appended.
/// It panics when the new length overflows, which `requires` rules out.
#[verifier::external_body]
fn extend_buffer(buf: &mut bytes::BytesMut, s: &[u8])
    requires
        buffer_contents(*old(buf)).len() + s@.len() <= isize::MAX,
    ensures
        buffer_contents(*final(buf)) == buffer_contents(*old(buf)) + s@,
{
    buf.extend_from_slice(s)
}

/// Relies on `From<bytes::BytesMut> for Vec<u8>`: the same bytes.
#[verifier::external_body]
fn buffer_into_vec(buf: bytes::BytesMut) -> (r: Vec<u8>)
    ensures
        r@ == buffer_contents(buf),
{
    Vec::from(buf)
}

/// The datagram that carries symbol `esi` of a block of `k` symbols.
pub fn encode_frame(esi: u32, k: u32, seq: u32, payload: &[u8]) -> (r: Vec<u8>)
    requires
        payload@.len() <= isize::MAX - HEADER_SIZE,
    ensures
        r@ == frame_bytes(esi, k, seq, payload@),
{
    let mut header: Vec<u8> = Vec::with_capacity(HEADER_SIZE);
    push_be32(&mut header, esi);
    push_be32(&mut header, k);
    push_be32(&mut header, seq);
    let mut buf = new_buffer(HEADER_SIZE + payload.len());
    extend_buffer(&mut buf, header.as_slice());
    extend_buffer(&mut buf, payload);
    assert(be32(esi) + be32(k) + be32(seq) + payload@ =~= header@ + payload@);
    buffer_into_vec(buf)
}

fn read_be32(b: &[u8], at: usize) -> (r: u32)
    requires
        at + 4 <= b@.len(),
    ensures
        r == from_be32(b@, at as int),
{
    let v: u64 = (b[at] as u64) * 16777216 + (b[at + 1] as u64) * 65536 + (b[at + 2] as u64) * 256
        + (b[at + 3] as u64);
    v as u32
}

/// Takes a datagram apart; one shorter than the header is refused.
pub fn decode_frame(bytes: &[u8]) -> (r: Result<Frame, TransportError>)
    ensures
        r is Err <==> bytes@.len() < HEADER_SIZE,
        r matches Ok(f) ==> {
            &&& f.esi == from_be32(bytes@, 0)
            &&& f.k == from_be32(bytes@, 4)
            &&& f.seq == from_be32(bytes@, 8)
            &&& f.payload@ == bytes@.subrange(HEADER_SIZE as int, bytes@.len() as int)
        },
{
    if bytes.len() < HEADER_SIZE {
        return Err(TransportError::MalformedFrame);
    }
    let esi = read_be32(bytes, 0);
    let k = read_be32(bytes, 4);
    let seq = read_be32(bytes, 8);
    let mut payload: Vec<u8> = Vec::with_capacity(bytes.len() - HEADER_SIZE);
    let mut i: usize = HEADER_SIZE;
    while i < bytes.len()
        invariant
            HEADER_SIZE <= i <= bytes@.len(),
            payload@ == bytes@.subrange(HEADER_SIZE as int, i as int),
        decreases bytes@.len() - i,
    {
        payload.push(bytes[i]);
        i = i + 1;
        assert(payload@ =~= bytes@.subrange(HEADER_SIZE as int, i as int));
    }
    Ok(Frame { esi, k, seq, payload })
}

proof fn lemma_be32_round_trip(x: u32)
    ensures
        from_be32(be32(x), 0) == x,
{
    let xi = x as int;
    let b0 = (xi / 16777216) % 256;
    let b1 = (xi / 65536) % 256;
    let b2 = (xi / 256) % 256;
    let b3 = xi % 256;
    assert(b0 * 16777216 + b1 * 65536 + b2 * 256 + b3 == xi) by (nonlinear_arith)
        requires
            0 <= xi < 0x1_0000_0000,
            b0 == (xi / 16777216) % 256,
            b1 == (xi / 65536) % 256,
            b2 == (xi / 256) % 256,
            b3 == xi % 256,
    {
        vstd::arithmetic::div_mod::lemma_fundamental_div_mod(xi, 256);
        vstd::arithmetic::div_mod::lemma_fundamental_div_mod(xi / 256, 256);
        vstd::arithmetic::div_mod::lemma_fundamental_div_mod(xi / 65536, 256);
        vstd::arithmetic::div_mod::lemma_div_denominator(xi, 256, 256);
        vstd::arithmetic::div_mod::lemma_div_denominator(xi, 65536, 256);
        assert(xi / 16777216 < 256) by {
            vstd::arithmetic::div_mod::lemma_div_by_multiple_is_strongly_ordered(
                xi,
                0x1_0000_0000,
                256,
                16777216,
            );
        }
    }
}

/// Framing loses nothing: taking apart the frame of (esi, k, seq, payload)
/// gives back exactly those four values.
pub proof fn lemma_frame_round_trip(esi: u32, k: u32, seq: u32, payload: Seq<u8>)
    ensures
        frame_bytes(esi, k, seq, payload).len() >= HEADER_SIZE,
        from_be32(frame_bytes(esi, k, seq, payload), 0) == esi,
        from_be32(frame_bytes(esi, k, seq, payload), 4) == k,
        from_be32(frame_bytes(esi, k, seq, payload), 8) == seq,
        frame_bytes(esi, k, seq, payload).subrange(
            HEADER_SIZE as int,
            frame_bytes(esi, k, seq, payload).len() as int,
        ) == payload,
{
    let f = frame_bytes(esi, k, seq, payload);
    lemma_be32_round_trip(esi);
    lemma_be32_round_trip(k);
    lemma_be32_round_trip(seq);
    assert(f.subrange(0, 4) =~= be32(esi));
    assert(f.subrange(4, 8) =~= be32(k));
    assert(f.subrange(8, 12) =~= be32(seq));
    assert(from_be32(f, 4) == from_be32(be32(k), 0));
    assert(from_be32(f, 8) == from_be32(be32(seq), 0));
    assert(f.subrange(HEADER_SIZE as int, f.len() as int) =~= payload);
}

/// Microseconds in one second.
pub const MICROS_PER_SECOND: u64 = 1_000_000;

/// The byte rate of `mbps` megabits per second: mbps * 1024 * 1024 / 8.
pub open spec fn byte_rate(mbps: u32) -> u64 {
    (mbps as int * 1024 * 1024 / 8) as u64
}

/// ceil(a / b) for b > 0.
pub open spec fn ceil_div_int(a: int, b: int) -> int {
    (a + b - 1) / b
}

/// Microseconds that `bytes` occupy at `bps` bytes per second, rounded up.
pub open spec fn send_time(bytes: int, bps: int) -> int {
    ceil_div_int(bytes * 1_000_000, bps)
}

/// `x`, capped at the largest u64.
pub open spec fn min_u64(x: int) -> u64 {
    if x > u64::MAX {
        u64::MAX
    } else {
        x as u64
    }
}

/// The larger of two times.
pub open spec fn later(a: int, b: int) -> int {
    if a >= b {
        a
    } else {
        b
    }
}

/// Token bucket of a sender that may not exceed a byte rate, kept as the
/// earliest time the next datagram may leave. Times are microseconds on the
/// caller's clock. Senders that share one limiter share the rate.
pub struct RateLimiter {
    pub bytes_per_second: u64,
    /// The earliest time at which the next datagram may leave.
    pub next_free: u64,
}

impl RateLimiter {
    /// A limiter for `mbps` megabits per second; zero sets no limit.
    pub fn new(mbps: u32) -> (r: Self)
        ensures
            r.bytes_per_second == byte_rate(mbps),
            r.next_free == 0,
    {
        let bps: u64 = (mbps as u64) * 1024 * 1024 / 8;
        RateLimiter { bytes_per_second: bps, next_free: 0 }
    }

    /// Charges a datagram of `bytes` asked to leave at time `now`; returns how
    /// many microseconds the sender must wait. The datagram leaves at the later
    /// of `now` and `next_free`, and the next one no earlier than its send time
    /// after that.
    pub fn wait(&mut self, bytes: u64, now: u64) -> (r: u64)
        ensures
            final(self).bytes_per_second == old(self).bytes_per_second,
            old(self).bytes_per_second == 0 ==> r == 0 && *final(self) == *old(self),
            old(self).bytes_per_second > 0 ==> {
                &&& r == later(now as int, old(self).next_free as int) - now
                &&& final(self).next_free == min_u64(
                    later(now as int, old(self).next_free as int) + send_time(
                        bytes as int,
                        old(self).bytes_per_second as int,
                    ),
                )
            },
    {
        if self.bytes_per_second == 0 {
            return 0;
        }
        let start: u64 = if now >= self.next_free {
            now
        } else {
            self.next_free
        };
        let bps: u128 = self.bytes_per_second as u128;
        let cost: u128 = ((bytes as u128) * 1_000_000 + bps - 1) / bps;
        let end: u128 = start as u128 + cost;
        self.next_free = if end > u64::MAX as u128 {
            u64::MAX
        } else {
            end as u64
        };
        start - now
    }
}

/// `wait` paces departures: a datagram charged after another leaves no
/// earlier than the first one's departure plus its send time (while the
/// clock has not saturated), which is what `lemma_rate_window` assumes.
pub proof fn lemma_wait_paces(next_free: u64, now1: u64, bytes1: u64, now2: u64, bps: u64)
    requires
        bps > 0,
        later(now1 as int, next_free as int) + send_time(bytes1 as int, bps as int) <= u64::MAX,
    ensures
        later(
            now2 as int,
            min_u64(later(now1 as int, next_free as int) + send_time(bytes1 as int, bps as int))
                as int,
        ) >= later(now1 as int, next_free as int) + send_time(bytes1 as int, bps as int),
{
}

/// Bytes of the datagrams a .. b - 1.
pub open spec fn bytes_between(n: Seq<nat>, a: int, b: int) -> int
    decreases b - a,
{
    if b <= a {
        0
    } else {
        bytes_between(n, a, b - 1) + n[b - 1]
    }
}

/// Datagrams a .. b - 1 take at least their send time: their bytes times a
/// million are at most the rate times the time from the first departure to
/// the departure of datagram b.
proof fn lemma_paced(s: Seq<int>, n: Seq<nat>, bps: int, a: int, b: int)
    requires
        bps > 0,
        s.len() == n.len(),
        0 <= a <= b < s.len(),
        forall|j: int| 0 <= j < s.len() - 1 ==> #[trigger] s[j + 1] >= s[j] + send_time(n[j] as int, bps),
    ensures
        bytes_between(n, a, b) * 1_000_000 <= bps * (s[b] - s[a]),
    decreases b - a,
{
    if b > a {
        lemma_paced(s, n, bps, a, b - 1);
        let c = send_time(n[b - 1] as int, bps);
        let m = n[b - 1] as int * 1_000_000;
        assert(c * bps >= m) by (nonlinear_arith)
            requires
                c == (m + bps - 1) / bps,
                bps > 0,
                m >= 0,
        {
            vstd::arithmetic::div_mod::lemma_fundamental_div_mod(m + bps - 1, bps);
        }
        let j = b - 1;
        assert(s[j + 1] >= s[j] + send_time(n[j] as int, bps));
        assert(s[b] >= s[b - 1] + c);
        assert(bps * (s[b] - s[a]) >= bps * (s[b - 1] - s[a]) + bps * c) by (nonlinear_arith)
            requires
                s[b] - s[a] >= (s[b - 1] - s[a]) + c,
                bps > 0,
        ;
    }
}

/// The rate holds over every second: when consecutive departures are at
/// least a send time apart (as `wait` arranges), the datagrams that leave
/// within any span shorter than one second carry at most the byte rate plus
/// the last datagram.
pub proof fn lemma_rate_window(s: Seq<int>, n: Seq<nat>, bps: int, a: int, b: int)
    requires
        bps > 0,
        s.len() == n.len(),
        0 <= a <= b < s.len(),
        s[b] - s[a] < MICROS_PER_SECOND,
        forall|j: int| 0 <= j < s.len() - 1 ==> #[trigger] s[j + 1] >= s[j] + send_time(n[j] as int, bps),
    ensures
        bytes_between(n, a, b + 1) <= bps + n[b],
{
    lemma_paced(s, n, bps, a, b);
    assert(s[b] >= s[a]) by {
        if b > a {
            lemma_sorted(s, n, bps, a, b);
        }
    }
    assert(bytes_between(n, a, b) * 1_000_000 < bps * 1_000_000) by (nonlinear_arith)
        requires
            bytes_between(n, a, b) * 1_000_000 <= bps * (s[b] - s[a]),
            0 <= s[b] - s[a] < 1_000_000,
            bps > 0,
    ;
}

proof fn lemma_sorted(s: Seq<int>, n: Seq<nat>, bps: int, a: int, b: int)
    requires
        bps > 0,
        s.len() == n.len(),
        0 <= a <= b < s.len(),
        forall|j: int| 0 <= j < s.len() - 1 ==> #[trigger] s[j + 1] >= s[j] + send_time(n[j] as int, bps),
    ensures
        s[b] >= s[a],
    decreases b - a,
{
    if b > a {
        lemma_sorted(s, n, bps, a, b - 1);
        let m = n[b - 1] as int * 1_000_000;
        assert(send_time(n[b - 1] as int, bps) >= 0) by (nonlinear_arith)
            requires
                m >= 0,
                bps > 0,
                send_time(n[b - 1] as int, bps) == (m + bps - 1) / bps,
        ;
        let j = b - 1;
        assert(s[j + 1] >= s[j] + send_time(n[j] as int, bps));
    }
}

} // verus!
