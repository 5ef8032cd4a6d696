use vstd::prelude::*;

use crate::bytes::{all_digits, is_digit, lemma_spec_digits_shape, spec_digits};
use crate::fixed::Fixed;
use crate::fixed::FIXED_MAX_MILLIS;

verus! {

/// Largest timestamp (milliseconds since epoch) a `Reading` may carry; the
/// bound keeps `timestamp * 1000` within what a `Fixed` can hold, so a
/// written log always parses back.
pub const MAX_TIMESTAMP_MS: u128 = 1_000_000_000_000_000;

/// One sample: a millisecond timestamp and a fixed-point temperature.
#[derive(Clone, Copy, Debug, PartialEq, Eq, Structural)]
pub struct Reading {
    pub timestamp_ms: u128,
    pub value: Fixed,
}

impl Reading {
    /// The representation invariant of a reading.
    pub open spec fn wf(self) -> bool {
        self.timestamp_ms <= MAX_TIMESTAMP_MS && self.value.wf()
    }

    /// Build a reading, rejecting a timestamp too large to survive a trip
    /// through the log or a value out of the fixed-point bounds.
    pub fn new(timestamp_ms: u128, value: Fixed) -> (r: Option<Reading>)
        ensures
            timestamp_ms <= MAX_TIMESTAMP_MS && value.wf() ==> r == Some(
                Reading { timestamp_ms, value },
            ),
            !(timestamp_ms <= MAX_TIMESTAMP_MS && value.wf()) ==> r is None,
            r matches Some(rd) ==> rd.wf(),
    {
        if timestamp_ms <= MAX_TIMESTAMP_MS && -FIXED_MAX_MILLIS <= value.millis
            && value.millis <= FIXED_MAX_MILLIS {
            Some(Reading { timestamp_ms, value })
        } else {
            None
        }
    }
}

/// The byte standing for the decimal digit `x`.
pub open spec fn digit_byte(x: nat) -> u8 {
    (48 + x) as u8
}

/// The fractional digits of a thousandths remainder `f` (1..=999), with
/// leading zeros kept and trailing zeros dropped, as `f64` display would
/// print them.
pub open spec fn spec_frac_digits(f: nat) -> Seq<u8> {
    if f % 10 != 0 {
        seq![digit_byte(f / 100), digit_byte((f / 10) % 10), digit_byte(f % 10)]
    } else if f % 100 != 0 {
        seq![digit_byte(f / 100), digit_byte((f / 10) % 10)]
    } else {
        seq![digit_byte(f / 100)]
    }
}

/// The decimal rendering of a nonnegative count of thousandths: the integer
/// part, then a dot and the fraction only when the fraction is nonzero.
pub open spec fn spec_render_mag(m: nat) -> Seq<u8> {
    if m % 1000 == 0 {
        spec_digits(m / 1000)
    } else {
        spec_digits(m / 1000) + seq![46u8] + spec_frac_digits(m % 1000)
    }
}

/// The decimal rendering of a count of thousandths, with a leading minus
/// sign for negative values.
pub open spec fn spec_render_fixed(m: int) -> Seq<u8> {
    if m < 0 {
        seq![45u8] + spec_render_mag((-m) as nat)
    } else {
        spec_render_mag(m as nat)
    }
}

/// A byte that can appear in a rendered number: a digit, a minus sign, or a
/// decimal point. Never a comma and never a newline.
pub open spec fn is_num_byte(b: u8) -> bool {
    is_digit(b) || b == 45 || b == 46
}

/// Every byte of a rendered number is a digit, a sign, or a point.
pub proof fn lemma_render_fixed_bytes(m: int)
    ensures
        spec_render_fixed(m).len() >= 1,
        forall|i: int|
            0 <= i < spec_render_fixed(m).len() ==> is_num_byte(#[trigger] spec_render_fixed(m)[i]),
{
    let mag: nat = if m < 0 {
        (-m) as nat
    } else {
        m as nat
    };
    lemma_spec_digits_shape(mag / 1000);
    let digs = spec_digits(mag / 1000);
    assert(forall|i: int| 0 <= i < digs.len() ==> is_num_byte(#[trigger] digs[i]));
    if mag % 1000 != 0 {
        let f = mag % 1000;
        assert(f / 100 < 10 && (f / 10) % 10 < 10 && f % 10 < 10);
        assert(forall|i: int|
            0 <= i < spec_frac_digits(f).len() ==> is_num_byte(#[trigger] spec_frac_digits(f)[i]));
    }
}

/// One CSV log row for a reading: "<timestamp>,<value>\n" as bytes.
pub open spec fn spec_format_line(r: Reading) -> Seq<u8> {
    spec_digits(r.timestamp_ms as nat) + seq![44u8] + spec_render_fixed(r.value.millis as int)
        + seq![10u8]
}

/// Render `n` as decimal digit bytes.
pub fn format_u128(n: u128) -> (r: Vec<u8>)
    ensures
        r@ == spec_digits(n as nat),
    decreases n,
{
    if n < 10 {
        let mut v: Vec<u8> = Vec::new();
        v.push(48u8 + n as u8);
        proof {
            assert(v@ =~= spec_digits(n as nat));
        }
        v
    } else {
        let mut v = format_u128(n / 10);
        v.push(48u8 + (n % 10) as u8);
        proof {
            assert((n / 10) as nat == (n as nat) / 10);
            assert((n % 10) as nat == (n as nat) % 10);
            assert(v@ =~= spec_digits(n as nat));
        }
        v
    }
}

/// Render a fixed-point value the way `f64` display renders the numbers this
/// logger produces: integer part, and fractional digits only when nonzero.
pub fn render_fixed(f: &Fixed) -> (r: Vec<u8>)
    requires
        f.wf(),
    ensures
        r@ == spec_render_fixed(f.millis as int),
{
    let mag: u128 = if f.millis < 0 {
        (-f.millis) as u128
    } else {
        f.millis as u128
    };
    let q: u128 = mag / 1000;
    let fr: u128 = mag % 1000;
    let mut out: Vec<u8> = Vec::new();
    if f.millis < 0 {
        out.push(45u8);
    }
    let mut digs = format_u128(q);
    out.append(&mut digs);
    proof {
        assert(mag as nat == (if f.millis < 0 {
            (-f.millis) as nat
        } else {
            f.millis as nat
        }));
        assert(q as nat == (mag as nat) / 1000);
        assert(fr as nat == (mag as nat) % 1000);
    }
    if fr != 0 {
        out.push(46u8);
        let a: u8 = 48u8 + (fr / 100) as u8;
        let b: u8 = 48u8 + ((fr / 10) % 10) as u8;
        let c: u8 = 48u8 + (fr % 10) as u8;
        if fr % 10 != 0 {
            out.push(a);
            out.push(b);
            out.push(c);
        } else if fr % 100 != 0 {
            out.push(a);
            out.push(b);
        } else {
            out.push(a);
        }
        proof {
            assert((fr / 100) as nat == ((fr as nat) / 100));
            assert(((fr / 10) % 10) as nat == ((fr as nat) / 10) % 10);
            assert((fr % 10) as nat == (fr as nat) % 10);
            assert(out@ =~= spec_render_fixed(f.millis as int));
        }
    } else {
        proof {
            assert(out@ =~= spec_render_fixed(f.millis as int));
        }
    }
    out
}

/// Format one reading as its CSV log row.
pub fn format_line(r: &Reading) -> (out: Vec<u8>)
    requires
        r.wf(),
    ensures
        out@ == spec_format_line(*r),
{
    let mut out = format_u128(r.timestamp_ms);
    out.push(44u8);
    let mut vals = render_fixed(&r.value);
    out.append(&mut vals);
    out.push(10u8);
    proof {
        assert(out@ =~= spec_format_line(*r));
    }
    out
}

/// The buffering stage of the log writer: rows accumulate in memory and are
/// handed back for writing only once the buffer has reached the configured
/// byte threshold, after which the buffer is empty again.
pub struct LogBuffer {
    pub buf: Vec<u8>,
    pub threshold: usize,
}

impl LogBuffer {
    /// A fresh, empty buffer with the given flush threshold.
    pub fn new(threshold: usize) -> (r: LogBuffer)
        ensures
            r.buf@ == Seq::<u8>::empty(),
            r.threshold == threshold,
    {
        LogBuffer { buf: Vec::new(), threshold }
    }

    /// Append one reading's row. When the buffer, row included, has reached
    /// the threshold, the whole content is returned for writing and the
    /// buffer is cleared; otherwise the row is retained.
    pub fn push(&mut self, r: &Reading) -> (out: Option<Vec<u8>>)
        requires
            r.wf(),
        ensures
            final(self).threshold == old(self).threshold,
            old(self).buf@.len() + spec_format_line(*r).len() >= old(self).threshold ==> ((
            out matches Some(v) && v@ == old(self).buf@ + spec_format_line(*r))
                && final(self).buf@ == Seq::<u8>::empty()),
            old(self).buf@.len() + spec_format_line(*r).len() < old(self).threshold ==> (out is None
                && final(self).buf@ == old(self).buf@ + spec_format_line(*r)),
    {
        let mut line = format_line(r);
        self.buf.append(&mut line);
        if self.buf.len() >= self.threshold {
            let flushed = self.buf.split_off(0);
            proof {
                assert(flushed@ =~= old(self).buf@ + spec_format_line(*r));
            }
            Some(flushed)
        } else {
            None
        }
    }
}

} // verus!
