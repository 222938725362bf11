//! The fixed-window/backoff rate-limit record.
//!
//! One record per hit key; each hit bumps the counter, and hits beyond the
//! threshold push the timeout out by one window per excess hit.

use vstd::prelude::*;

use crate::clock::unix_now;

verus! {

/// Division truncating toward zero, as the calendar library's whole-minute
/// arithmetic behaves.
pub open spec fn div_toward_zero(a: int, b: int) -> int
    recommends
        b > 0,
{
    if a >= 0 {
        a / b
    } else {
        -((-a) / b)
    }
}

/// A value the wall clock can read: within the representable years.
pub open spec fn is_clock_reading(t: i64) -> bool {
    -400_000_000_000 <= t <= 400_000_000_000
}

/// One rate-limit record.
#[derive(Clone, Copy, PartialEq, Eq, Structural, Debug)]
pub struct RateLimited {
    pub hits: u32,
    pub lasthit: i64,
    pub timeout: i64,
}

impl RateLimited {
    /// Timestamps within the representable clock range, timeouts within a
    /// range every further hit keeps representable.
    pub open spec fn wf(self) -> bool {
        &&& -400_000_000_000 <= self.lasthit <= 400_000_000_000
        &&& -400_000_000_000 <= self.timeout <= 0x4000_0000_0000_0000
    }

    /// A fresh record: one hit, no timeout.
    pub fn new() -> (r: RateLimited)
        ensures
            r.hits == 1,
            r.lasthit == r.timeout,
            r.wf(),
    {
        let now = unix_now();
        RateLimited { hits: 1, lasthit: now, timeout: now }
    }

    /// The record's binary form: counter then both timestamps, each
    /// little-endian (the layout its serialization library uses).
    pub fn to_bin(&self) -> (r: Vec<u8>)
        ensures
            r@ =~= le32_bytes(self.hits).add(le64_bytes(self.lasthit as u64)).add(
                le64_bytes(self.timeout as u64),
            ),
            r@.len() == 20,
    {
        let mut out: Vec<u8> = Vec::new();
        push_le32(&mut out, self.hits);
        push_le64(&mut out, self.lasthit as u64);
        push_le64(&mut out, self.timeout as u64);
        out
    }

    /// Reads a record back from its binary form: the round trip of
    /// `to_bin`.
    #[verifier::rlimit(100)]
    pub fn from_bin(bin: &[u8]) -> (r: Option<RateLimited>)
        ensures
            match r {
                Some(rl) => {
                    &&& bin@.len() == 20
                    &&& le32_bytes(rl.hits) =~= bin@.subrange(0, 4)
                    &&& le64_bytes(rl.lasthit as u64) =~= bin@.subrange(4, 12)
                    &&& le64_bytes(rl.timeout as u64) =~= bin@.subrange(12, 20)
                },
                None => bin@.len() != 20,
            },
    {
        if bin.len() != 20 {
            return None;
        }
        let hits = read_le32(bin, 0);
        let lh_u = read_le64(bin, 4);
        let to_u = read_le64(bin, 12);
        let lasthit = lh_u as i64;
        let timeout = to_u as i64;
        let rl = RateLimited { hits, lasthit, timeout };
        proof {
            lemma_u64_i64_round(lh_u);
            lemma_u64_i64_round(to_u);
        }
        Some(rl)
    }

    /// Whether the timeout lies in the future of the clock reading taken
    /// during the call.
    pub fn is_timing_out(&self) -> (r: bool)
        ensures
            exists|t: i64| #[trigger] is_clock_reading(t) && r == (t < self.timeout),
    {
        let now = unix_now();
        let r = self.is_timing_out_at(now);
        proof {
            assert(is_clock_reading(now) && r == (now < self.timeout));
        }
        r
    }

    /// Whether the timeout lies in the future of `now`.
    pub fn is_timing_out_at(&self, now: i64) -> (r: bool)
        ensures
            r == (now < self.timeout),
    {
        now < self.timeout
    }

    /// Whole minutes until the timeout, against the clock reading taken
    /// during the call.
    pub fn minutes_left(&self) -> (r: i64)
        requires
            self.wf(),
        ensures
            exists|t: i64| #[trigger] is_clock_reading(t) && r == div_toward_zero(
                self.timeout - t,
                60,
            ),
    {
        let now = unix_now();
        let r = self.minutes_left_at(now);
        proof {
            assert(is_clock_reading(now) && r == div_toward_zero(self.timeout - now, 60));
        }
        r
    }

    /// Whole minutes from `now` until the timeout, truncated toward zero.
    pub fn minutes_left_at(&self, now: i64) -> (r: i64)
        requires
            self.wf(),
            -400_000_000_000 <= now <= 400_000_000_000,
        ensures
            r == div_toward_zero(self.timeout - now, 60),
    {
        let diff = self.seconds_left_at(now);
        if diff >= 0 {
            ((diff as u64) / 60) as i64
        } else {
            let q = ((-diff) as u64) / 60;
            -(q as i64)
        }
    }

    /// Seconds until the timeout, against the clock reading taken during
    /// the call.
    pub fn seconds_left(&self) -> (r: i64)
        requires
            self.wf(),
        ensures
            exists|t: i64| #[trigger] is_clock_reading(t) && r == self.timeout - t,
    {
        let now = unix_now();
        let r = self.seconds_left_at(now);
        proof {
            assert(is_clock_reading(now) && r == self.timeout - now);
        }
        r
    }

    /// Seconds from `now` until the timeout.
    pub fn seconds_left_at(&self, now: i64) -> (r: i64)
        requires
            self.wf(),
            -400_000_000_000 <= now <= 400_000_000_000,
        ensures
            r == self.timeout - now,
    {
        self.timeout - now
    }

    /// One more hit at `now`: the count resets to one after a full quiet
    /// window past the timeout; above the threshold, the timeout moves out
    /// by one window per excess hit.
    pub fn hit(&mut self, hits: u32, threshold: u32, dur_secs: i64, now: i64)
        requires
            old(self).wf(),
            -400_000_000_000 <= now <= 400_000_000_000,
            0 <= dur_secs,
            old(self).hits + hits <= u32::MAX,
            dur_secs * (old(self).hits + hits) <= 0x2000_0000_0000_0000,
        ensures
            final(self).wf(),
            final(self).lasthit == now,
            ({
                let bumped = (old(self).hits + hits) as u32;
                let reset = bumped > 1 && now > old(self).timeout && now - old(self).lasthit
                    > dur_secs;
                &&& final(self).hits == (if reset {
                    1u32
                } else {
                    bumped
                })
                &&& final(self).timeout == (if reset {
                    now as int
                } else if bumped > threshold {
                    now + dur_secs * (bumped - threshold)
                } else {
                    old(self).timeout as int
                })
            }),
    {
        self.hits = self.hits + hits;
        if self.hits > 1 && now > self.timeout && now - self.lasthit > dur_secs {
            self.hits = 1;
            self.timeout = now;
        } else if self.hits > threshold {
            let excess = (self.hits - threshold) as i64;
            let ghost cap = old(self).hits + hits;
            proof {
                lemma_mul_monotone_nonneg(dur_secs as int, excess as int, cap);
            }
            self.timeout = now + dur_secs * excess;
        }
        self.lasthit = now;
    }
}

/// Multiplying a larger nonnegative factor by a nonnegative value gives at
/// least as much, and products of nonnegatives are nonnegative.
proof fn lemma_mul_monotone_nonneg(d: int, a: int, b: int)
    requires
        0 <= d,
        0 <= a <= b,
    ensures
        0 <= d * a <= d * b,
{
    assert(0 <= d * a <= d * b) by (nonlinear_arith)
        requires
            0 <= d,
            0 <= a <= b,
    ;
}

/// Byte `i` of a 32-bit value, little-endian.
pub open spec fn byte32(v: u32, i: int) -> u8 {
    if i == 0 {
        (v % 256) as u8
    } else if i == 1 {
        ((v / 256) % 256) as u8
    } else if i == 2 {
        ((v / 0x10000) % 256) as u8
    } else {
        ((v / 0x1000000) % 256) as u8
    }
}

/// The four little-endian bytes of a 32-bit value.
pub open spec fn le32_bytes(v: u32) -> Seq<u8> {
    Seq::new(4, |i: int| byte32(v, i))
}

/// Byte `i` of a 64-bit value, little-endian.
pub open spec fn byte64(v: u64, i: int) -> u8 {
    if i == 0 {
        (v % 256) as u8
    } else if i == 1 {
        ((v / 256) % 256) as u8
    } else if i == 2 {
        ((v / 0x10000) % 256) as u8
    } else if i == 3 {
        ((v / 0x1000000) % 256) as u8
    } else if i == 4 {
        ((v / 0x1_0000_0000) % 256) as u8
    } else if i == 5 {
        ((v / 0x100_0000_0000) % 256) as u8
    } else if i == 6 {
        ((v / 0x1_0000_0000_0000) % 256) as u8
    } else {
        ((v / 0x100_0000_0000_0000) % 256) as u8
    }
}

/// The eight little-endian bytes of a 64-bit value.
pub open spec fn le64_bytes(v: u64) -> Seq<u8> {
    Seq::new(8, |i: int| byte64(v, i))
}

fn push_le32(out: &mut Vec<u8>, v: u32)
    ensures
        final(out)@ =~= old(out)@.add(le32_bytes(v)),
{
    out.push((v % 256) as u8);
    out.push(((v / 256) % 256) as u8);
    out.push(((v / 0x10000) % 256) as u8);
    out.push(((v / 0x1000000) % 256) as u8);
}

fn push_le64(out: &mut Vec<u8>, v: u64)
    ensures
        final(out)@ =~= old(out)@.add(le64_bytes(v)),
{
    out.push((v % 256) as u8);
    out.push(((v / 256) % 256) as u8);
    out.push(((v / 0x10000) % 256) as u8);
    out.push(((v / 0x1000000) % 256) as u8);
    out.push(((v / 0x1_0000_0000) % 256) as u8);
    out.push(((v / 0x100_0000_0000) % 256) as u8);
    out.push(((v / 0x1_0000_0000_0000) % 256) as u8);
    out.push(((v / 0x100_0000_0000_0000) % 256) as u8);
}

/// The 32-bit value four little-endian bytes spell.
fn read_le32(b: &[u8], at: usize) -> (r: u32)
    requires
        at + 4 <= b@.len(),
    ensures
        le32_bytes(r) =~= b@.subrange(at as int, at + 4),
{
    let r = (b[at] as u32) + (b[at + 1] as u32) * 256 + (b[at + 2] as u32) * 0x10000 + (b[at
        + 3] as u32) * 0x1000000;
    proof {
        lemma_le32_digits(b@[at as int], b@[at as int + 1], b@[at as int + 2], b@[at as int + 3]);
    }
    r
}

/// The 64-bit value eight little-endian bytes spell.
fn read_le64(b: &[u8], at: usize) -> (r: u64)
    requires
        at + 8 <= b@.len(),
    ensures
        le64_bytes(r) =~= b@.subrange(at as int, at + 8),
{
    let r = (b[at] as u64) + (b[at + 1] as u64) * 256 + (b[at + 2] as u64) * 0x10000 + (b[at
        + 3] as u64) * 0x1000000 + (b[at + 4] as u64) * 0x1_0000_0000 + (b[at + 5] as u64)
        * 0x100_0000_0000 + (b[at + 6] as u64) * 0x1_0000_0000_0000 + (b[at + 7] as u64)
        * 0x100_0000_0000_0000;
    proof {
        lemma_le64_digits(
            b@[at as int],
            b@[at as int + 1],
            b@[at as int + 2],
            b@[at as int + 3],
            b@[at as int + 4],
            b@[at as int + 5],
            b@[at as int + 6],
            b@[at as int + 7],
        );
    }
    r
}

/// Digit extraction undoes the little-endian sum of four bytes.
proof fn lemma_le32_digits(b0: u8, b1: u8, b2: u8, b3: u8)
    ensures
        ({
            let v = (b0 + b1 * 256 + b2 * 0x10000 + b3 * 0x1000000) as u32;
            &&& v % 256 == b0
            &&& (v / 256) % 256 == b1
            &&& (v / 0x10000) % 256 == b2
            &&& (v / 0x1000000) % 256 == b3
        }),
{
    let v = (b0 + b1 * 256 + b2 * 0x10000 + b3 * 0x1000000) as u32;
    assert(v % 256 == b0 && (v / 256) % 256 == b1 && (v / 0x10000) % 256 == b2 && (v
        / 0x1000000) % 256 == b3) by (bit_vector)
        requires
            v == (b0 + b1 * 256 + b2 * 0x10000 + b3 * 0x1000000) as u32,
    ;
}

/// Digit extraction undoes the little-endian sum of eight bytes.
proof fn lemma_le64_digits(b0: u8, b1: u8, b2: u8, b3: u8, b4: u8, b5: u8, b6: u8, b7: u8)
    ensures
        ({
            let v = (b0 + b1 * 256 + b2 * 0x10000 + b3 * 0x1000000 + b4 * 0x1_0000_0000 + b5
                * 0x100_0000_0000 + b6 * 0x1_0000_0000_0000 + b7 * 0x100_0000_0000_0000) as u64;
            &&& v % 256 == b0
            &&& (v / 256) % 256 == b1
            &&& (v / 0x10000) % 256 == b2
            &&& (v / 0x1000000) % 256 == b3
            &&& (v / 0x1_0000_0000) % 256 == b4
            &&& (v / 0x100_0000_0000) % 256 == b5
            &&& (v / 0x1_0000_0000_0000) % 256 == b6
            &&& (v / 0x100_0000_0000_0000) % 256 == b7
        }),
{
    let v = (b0 + b1 * 256 + b2 * 0x10000 + b3 * 0x1000000 + b4 * 0x1_0000_0000 + b5
        * 0x100_0000_0000 + b6 * 0x1_0000_0000_0000 + b7 * 0x100_0000_0000_0000) as u64;
    assert(v % 256 == b0 && (v / 256) % 256 == b1 && (v / 0x10000) % 256 == b2 && (v
        / 0x1000000) % 256 == b3 && (v / 0x1_0000_0000) % 256 == b4 && (v / 0x100_0000_0000)
        % 256 == b5 && (v / 0x1_0000_0000_0000) % 256 == b6 && (v / 0x100_0000_0000_0000) % 256
        == b7) by (bit_vector)
        requires
            v == (b0 + b1 * 256 + b2 * 0x10000 + b3 * 0x1000000 + b4 * 0x1_0000_0000 + b5
                * 0x100_0000_0000 + b6 * 0x1_0000_0000_0000 + b7
                * 0x100_0000_0000_0000) as u64,
    ;
}

/// Casting to signed and back is the identity on the bit pattern.
proof fn lemma_u64_i64_round(x: u64)
    ensures
        (x as i64) as u64 == x,
{
    assert((x as i64) as u64 == x) by (bit_vector);
}

/// Casting to unsigned and back is the identity on the bit pattern.
proof fn lemma_i64_u64_round(x: i64)
    ensures
        (x as u64) as i64 == x,
{
    assert((x as u64) as i64 == x) by (bit_vector);
}

/// Distinct 32-bit values have distinct little-endian bytes.
proof fn lemma_le32_inj(x: u32, y: u32)
    requires
        le32_bytes(x) == le32_bytes(y),
    ensures
        x == y,
{
    assert(le32_bytes(x)[0] == byte32(x, 0) && le32_bytes(y)[0] == byte32(y, 0));
    assert((x % 256) as u8 == (y % 256) as u8);
    assert((x % 256) < 256 && (y % 256) < 256);
    assert(x % 256 == y % 256);
    assert(le32_bytes(x)[1] == byte32(x, 1) && le32_bytes(y)[1] == byte32(y, 1));
    assert((x / 256 % 256) as u8 == (y / 256 % 256) as u8);
    assert((x / 256 % 256) < 256 && (y / 256 % 256) < 256);
    assert(x / 256 % 256 == y / 256 % 256);
    assert(le32_bytes(x)[2] == byte32(x, 2) && le32_bytes(y)[2] == byte32(y, 2));
    assert((x / 0x10000 % 256) as u8 == (y / 0x10000 % 256) as u8);
    assert((x / 0x10000 % 256) < 256 && (y / 0x10000 % 256) < 256);
    assert(x / 0x10000 % 256 == y / 0x10000 % 256);
    assert(le32_bytes(x)[3] == byte32(x, 3) && le32_bytes(y)[3] == byte32(y, 3));
    assert((x / 0x1000000 % 256) as u8 == (y / 0x1000000 % 256) as u8);
    assert((x / 0x1000000 % 256) < 256 && (y / 0x1000000 % 256) < 256);
    assert(x / 0x1000000 % 256 == y / 0x1000000 % 256);
    assert(x == y) by (bit_vector)
        requires
            x % 256 == y % 256,
            (x / 256) % 256 == (y / 256) % 256,
            (x / 0x10000) % 256 == (y / 0x10000) % 256,
            (x / 0x1000000) % 256 == (y / 0x1000000) % 256,
    ;
}

/// Distinct 64-bit values have distinct little-endian bytes.
#[verifier::rlimit(100)]
proof fn lemma_le64_inj(x: u64, y: u64)
    requires
        le64_bytes(x) == le64_bytes(y),
    ensures
        x == y,
{
    assert(le64_bytes(x)[0] == byte64(x, 0) && le64_bytes(y)[0] == byte64(y, 0));
    assert((x % 256) as u8 == (y % 256) as u8);
    assert((x % 256) < 256 && (y % 256) < 256);
    assert(x % 256 == y % 256);
    assert(le64_bytes(x)[1] == byte64(x, 1) && le64_bytes(y)[1] == byte64(y, 1));
    assert((x / 256 % 256) as u8 == (y / 256 % 256) as u8);
    assert((x / 256 % 256) < 256 && (y / 256 % 256) < 256);
    assert(x / 256 % 256 == y / 256 % 256);
    assert(le64_bytes(x)[2] == byte64(x, 2) && le64_bytes(y)[2] == byte64(y, 2));
    assert((x / 0x10000 % 256) as u8 == (y / 0x10000 % 256) as u8);
    assert((x / 0x10000 % 256) < 256 && (y / 0x10000 % 256) < 256);
    assert(x / 0x10000 % 256 == y / 0x10000 % 256);
    assert(le64_bytes(x)[3] == byte64(x, 3) && le64_bytes(y)[3] == byte64(y, 3));
    assert((x / 0x1000000 % 256) as u8 == (y / 0x1000000 % 256) as u8);
    assert((x / 0x1000000 % 256) < 256 && (y / 0x1000000 % 256) < 256);
    assert(x / 0x1000000 % 256 == y / 0x1000000 % 256);
    assert(le64_bytes(x)[4] == byte64(x, 4) && le64_bytes(y)[4] == byte64(y, 4));
    assert((x / 0x1_0000_0000 % 256) as u8 == (y / 0x1_0000_0000 % 256) as u8);
    assert((x / 0x1_0000_0000 % 256) < 256 && (y / 0x1_0000_0000 % 256) < 256);
    assert(x / 0x1_0000_0000 % 256 == y / 0x1_0000_0000 % 256);
    assert(le64_bytes(x)[5] == byte64(x, 5) && le64_bytes(y)[5] == byte64(y, 5));
    assert((x / 0x100_0000_0000 % 256) as u8 == (y / 0x100_0000_0000 % 256) as u8);
    assert((x / 0x100_0000_0000 % 256) < 256 && (y / 0x100_0000_0000 % 256) < 256);
    assert(x / 0x100_0000_0000 % 256 == y / 0x100_0000_0000 % 256);
    assert(le64_bytes(x)[6] == byte64(x, 6) && le64_bytes(y)[6] == byte64(y, 6));
    assert((x / 0x1_0000_0000_0000 % 256) as u8 == (y / 0x1_0000_0000_0000 % 256) as u8);
    assert((x / 0x1_0000_0000_0000 % 256) < 256 && (y / 0x1_0000_0000_0000 % 256) < 256);
    assert(x / 0x1_0000_0000_0000 % 256 == y / 0x1_0000_0000_0000 % 256);
    assert(le64_bytes(x)[7] == byte64(x, 7) && le64_bytes(y)[7] == byte64(y, 7));
    assert((x / 0x100_0000_0000_0000 % 256) as u8 == (y / 0x100_0000_0000_0000 % 256) as u8);
    assert((x / 0x100_0000_0000_0000 % 256) < 256 && (y / 0x100_0000_0000_0000 % 256) < 256);
    assert(x / 0x100_0000_0000_0000 % 256 == y / 0x100_0000_0000_0000 % 256);
    assert(x == y) by (bit_vector)
        requires
            x % 256 == y % 256,
            (x / 256) % 256 == (y / 256) % 256,
            (x / 0x10000) % 256 == (y / 0x10000) % 256,
            (x / 0x1000000) % 256 == (y / 0x1000000) % 256,
            (x / 0x1_0000_0000) % 256 == (y / 0x1_0000_0000) % 256,
            (x / 0x100_0000_0000) % 256 == (y / 0x100_0000_0000) % 256,
            (x / 0x1_0000_0000_0000) % 256 == (y / 0x1_0000_0000_0000) % 256,
            (x / 0x100_0000_0000_0000) % 256 == (y / 0x100_0000_0000_0000) % 256,
    ;
}

/// The binary form pins the record down: two records with the same bytes
/// are the same record, so reading back what `to_bin` wrote restores it.
pub proof fn lemma_to_bin_round_trip(a: RateLimited, b: RateLimited)
    requires
        le32_bytes(a.hits) == le32_bytes(b.hits),
        le64_bytes(a.lasthit as u64) == le64_bytes(b.lasthit as u64),
        le64_bytes(a.timeout as u64) == le64_bytes(b.timeout as u64),
    ensures
        a == b,
{
    lemma_le32_inj(a.hits, b.hits);
    lemma_le64_inj(a.lasthit as u64, b.lasthit as u64);
    lemma_le64_inj(a.timeout as u64, b.timeout as u64);
    let al = a.lasthit;
    let bl = b.lasthit;
    let at = a.timeout;
    let bt = b.timeout;
    assert(al as u64 == bl as u64 && at as u64 == bt as u64);
    lemma_i64_u64_round(al);
    lemma_i64_u64_round(bl);
    lemma_i64_u64_round(at);
    lemma_i64_u64_round(bt);
    assert(al == bl);
    assert(at == bt);
}

} // verus!
