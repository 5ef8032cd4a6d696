use vstd::prelude::*;

use crate::bytes::{
    all_digits, copy_range, digits_val, is_digit, lemma_digits_val_extend, lemma_digits_val_nonneg,
    lemma_digits_val_push, lemma_digits_val_small, lemma_split_nonempty, spec_split, split_bytes,
    views,
};
use crate::error::LogError;
use crate::fixed::{Fixed, FIXED_MAX_MILLIS};

verus! {

/// Largest integer part a parsed fixed-point number may have: with three
/// fractional digits it fills a `Fixed` exactly.
pub const INT_PART_MAX: i128 = 1_000_000_000_000_000;

/// A nonempty all-digit field.
pub open spec fn int_ok(s: Seq<u8>) -> bool {
    s.len() >= 1 && all_digits(s)
}

/// A fraction field: one to three digits.
pub open spec fn frac_ok(s: Seq<u8>) -> bool {
    1 <= s.len() <= 3 && all_digits(s)
}

/// The weight of a fraction field's value in thousandths.
pub open spec fn frac_scale(len: nat) -> int {
    if len == 1 {
        100
    } else if len == 2 {
        10
    } else {
        1
    }
}

/// The unsigned decimal number a field denotes, in thousandths: digits,
/// optionally followed by a dot and one to three fraction digits.
pub open spec fn spec_parse_mag(t: Seq<u8>) -> Option<int> {
    let parts = spec_split(t, 46u8);
    if parts.len() == 1 && int_ok(parts[0]) {
        Some(digits_val(parts[0]) * 1000)
    } else if parts.len() == 2 && int_ok(parts[0]) && frac_ok(parts[1]) {
        Some(digits_val(parts[0]) * 1000 + digits_val(parts[1]) * frac_scale(parts[1].len()))
    } else {
        None
    }
}

/// The fixed-point number a field denotes: an optional sign, then a
/// magnitude; rejected when it would not fit in a `Fixed`.
pub open spec fn spec_parse_fixed(s: Seq<u8>) -> Option<int> {
    if s.len() >= 1 && (s[0] == 43 || s[0] == 45) {
        match spec_parse_mag(s.drop_first()) {
            Some(v) => {
                let sv: int = if s[0] == 45 {
                    -v
                } else {
                    v
                };
                if -FIXED_MAX_MILLIS <= sv <= FIXED_MAX_MILLIS {
                    Some(sv)
                } else {
                    None
                }
            },
            None => None,
        }
    } else {
        match spec_parse_mag(s) {
            Some(v) => if -FIXED_MAX_MILLIS <= v <= FIXED_MAX_MILLIS {
                Some(v)
            } else {
                None
            },
            None => None,
        }
    }
}

/// What one non-empty log row denotes: exactly two comma-separated fields,
/// each a representable number. A bad field is a `Parse` error, a wrong
/// field count a `Format` error, checking the fields left to right.
pub open spec fn spec_parse_line(line: Seq<u8>) -> Result<(int, int), LogError> {
    let fields = spec_split(line, 44u8);
    if spec_parse_fixed(fields[0]) is None {
        Err(LogError::Parse)
    } else if fields.len() == 1 {
        Err(LogError::Format)
    } else if spec_parse_fixed(fields[1]) is None {
        Err(LogError::Parse)
    } else if fields.len() > 2 {
        Err(LogError::Format)
    } else {
        Ok((spec_parse_fixed(fields[0])->Some_0, spec_parse_fixed(fields[1])->Some_0))
    }
}

/// What a list of rows denotes: empty rows are skipped, the others parsed in
/// order, and the first error wins.
pub open spec fn spec_parse_lines(lines: Seq<Seq<u8>>) -> Result<Seq<(int, int)>, LogError>
    decreases lines.len(),
{
    if lines.len() == 0 {
        Ok(Seq::empty())
    } else if lines[0].len() == 0 {
        spec_parse_lines(lines.drop_first())
    } else {
        match spec_parse_line(lines[0]) {
            Err(e) => Err(e),
            Ok(p) => match spec_parse_lines(lines.drop_first()) {
                Err(e) => Err(e),
                Ok(rest) => Ok(seq![p] + rest),
            },
        }
    }
}

/// What a whole log file denotes: its newline-separated rows, parsed.
pub open spec fn spec_parse_log(data: Seq<u8>) -> Result<Seq<(int, int)>, LogError> {
    spec_parse_lines(spec_split(data, 10u8))
}

/// The integer views of a parsed row sequence.
pub open spec fn pairs_view(s: Seq<(Fixed, Fixed)>) -> Seq<(int, int)> {
    s.map_values(|p: (Fixed, Fixed)| (p.0.millis as int, p.1.millis as int))
}

/// Parse a nonempty all-digit field, refusing values above `limit`.
fn parse_digits_limited(s: &[u8], limit: i128) -> (r: Option<i128>)
    requires
        0 <= limit <= FIXED_MAX_MILLIS,
    ensures
        r matches Some(v) ==> int_ok(s@) && v == digits_val(s@) && 0 <= v <= limit,
        r is None ==> !int_ok(s@) || digits_val(s@) > limit,
{
    if s.len() == 0 {
        return None;
    }
    let mut val: i128 = 0;
    let mut i: usize = 0;
    proof {
        assert(s@.subrange(0, 0) =~= Seq::<u8>::empty());
    }
    while i < s.len()
        invariant
            0 <= i <= s@.len(),
            0 <= limit <= FIXED_MAX_MILLIS,
            forall|j: int| 0 <= j < i ==> is_digit(#[trigger] s@[j]),
            val == digits_val(s@.subrange(0, i as int)),
            0 <= val <= limit,
        decreases s@.len() - i,
    {
        let b = s[i];
        if b < 48 || b > 57 {
            proof {
                assert(!is_digit(s@[i as int]));
            }
            return None;
        }
        let d = (b - 48) as i128;
        let next = val * 10 + d;
        proof {
            let pre = s@.subrange(0, i as int);
            lemma_digits_val_push(pre, s@[i as int]);
            assert(pre.push(s@[i as int]) =~= s@.subrange(0, i as int + 1));
        }
        if next > limit {
            proof {
                if all_digits(s@) {
                    lemma_digits_val_extend(s@, i as int + 1);
                }
            }
            return None;
        }
        val = next;
        i = i + 1;
    }
    proof {
        assert(s@.subrange(0, s@.len() as int) =~= s@);
    }
    Some(val)
}

/// Parse an unsigned magnitude field to thousandths.
fn parse_mag(t: &[u8]) -> (r: Option<i128>)
    ensures
        r matches Some(v) ==> spec_parse_mag(t@) == Some(v as int) && 0 <= v <= FIXED_MAX_MILLIS,
        r is None ==> spec_parse_mag(t@) is None || spec_parse_mag(t@)->Some_0 > FIXED_MAX_MILLIS,
{
    let parts = split_bytes(t, 46u8);
    proof {
        lemma_split_nonempty(t@, 46u8);
        assert(views(parts@).len() == parts@.len());
    }
    if parts.len() == 1 {
        let ghost p0 = spec_split(t@, 46u8)[0];
        proof {
            assert(parts@[0]@ == views(parts@)[0]);
        }
        match parse_digits_limited(parts[0].as_slice(), INT_PART_MAX) {
            None => {
                proof {
                    if int_ok(p0) && digits_val(p0) > INT_PART_MAX {
                        lemma_digits_val_nonneg(p0);
                    }
                }
                None
            },
            Some(v) => Some(v * 1000),
        }
    } else if parts.len() == 2 {
        let ghost p0 = spec_split(t@, 46u8)[0];
        let ghost p1 = spec_split(t@, 46u8)[1];
        proof {
            assert(parts@[0]@ == views(parts@)[0]);
            assert(parts@[1]@ == views(parts@)[1]);
        }
        let flen = parts[1].len();
        if flen < 1 || flen > 3 {
            return None;
        }
        match parse_digits_limited(parts[0].as_slice(), INT_PART_MAX) {
            None => {
                proof {
                    if int_ok(p0) && digits_val(p0) > INT_PART_MAX && frac_ok(p1) {
                        lemma_digits_val_nonneg(p1);
                        assert(digits_val(p1) * frac_scale(p1.len()) >= 0);
                    }
                }
                None
            },
            Some(iv) => {
                match parse_digits_limited(parts[1].as_slice(), 999) {
                    None => {
                        proof {
                            if frac_ok(p1) {
                                lemma_digits_val_small(p1);
                            }
                        }
                        None
                    },
                    Some(fv) => {
                        let scale: i128 = if flen == 1 {
                            100
                        } else if flen == 2 {
                            10
                        } else {
                            1
                        };
                        proof {
                            lemma_digits_val_small(p1);
                        }
                        let total = iv * 1000 + fv * scale;
                        if total > FIXED_MAX_MILLIS {
                            None
                        } else {
                            Some(total)
                        }
                    },
                }
            },
        }
    } else {
        None
    }
}

/// Parse one field as a fixed-point number.
pub fn parse_fixed(field: &[u8]) -> (r: Option<Fixed>)
    ensures
        r matches Some(f) ==> spec_parse_fixed(field@) == Some(f.millis as int) && f.wf(),
        r is None ==> spec_parse_fixed(field@) is None,
{
    let signed = field.len() >= 1 && (field[0] == 43 || field[0] == 45);
    let neg = field.len() >= 1 && field[0] == 45;
    let t: Vec<u8> = if signed {
        copy_range(field, 1, field.len())
    } else {
        copy_range(field, 0, field.len())
    };
    proof {
        if signed {
            assert(t@ =~= field@.drop_first());
        } else {
            assert(t@ =~= field@);
        }
    }
    match parse_mag(t.as_slice()) {
        None => None,
        Some(v) => {
            let millis: i128 = if neg {
                -v
            } else {
                v
            };
            Some(Fixed { millis })
        },
    }
}

/// Parse one non-empty log row into its two fields.
pub fn parse_line(line: &[u8]) -> (r: Result<(Fixed, Fixed), LogError>)
    ensures
        r matches Ok(p) ==> spec_parse_line(line@) == Ok::<(int, int), LogError>(
            (p.0.millis as int, p.1.millis as int),
        ) && p.0.wf() && p.1.wf(),
        r matches Err(e) ==> spec_parse_line(line@) == Err::<(int, int), LogError>(e),
{
    let fields = split_bytes(line, 44u8);
    proof {
        lemma_split_nonempty(line@, 44u8);
        assert(views(fields@).len() == fields@.len());
        assert(fields@[0]@ == views(fields@)[0]);
    }
    let first = match parse_fixed(fields[0].as_slice()) {
        None => {
            return Err(LogError::Parse);
        },
        Some(f) => f,
    };
    if fields.len() == 1 {
        return Err(LogError::Format);
    }
    proof {
        assert(fields@[1]@ == views(fields@)[1]);
    }
    let second = match parse_fixed(fields[1].as_slice()) {
        None => {
            return Err(LogError::Parse);
        },
        Some(f) => f,
    };
    if fields.len() > 2 {
        return Err(LogError::Format);
    }
    Ok((first, second))
}

/// Parse a whole log file, already read into memory, into its sequence of
/// (timestamp, value) pairs in file order. Empty lines are skipped; a field
/// that is not a representable number is a `Parse` error and a line without
/// exactly two fields a `Format` error, first offence deciding.
pub fn parse_log(data: &[u8]) -> (r: Result<Vec<(Fixed, Fixed)>, LogError>)
    ensures
        r matches Ok(v) ==> spec_parse_log(data@) == Ok::<Seq<(int, int)>, LogError>(
            pairs_view(v@),
        ) && (forall|j: int|
            0 <= j < v@.len() ==> (#[trigger] v@[j]).0.wf() && v@[j].1.wf()),
        r matches Err(e) ==> spec_parse_log(data@) == Err::<Seq<(int, int)>, LogError>(e),
{
    let parts = split_bytes(data, 10u8);
    let ghost lines = spec_split(data@, 10u8);
    proof {
        assert(views(parts@).len() == parts@.len());
    }
    let mut out: Vec<(Fixed, Fixed)> = Vec::new();
    let mut i: usize = 0;
    proof {
        assert(lines.skip(0) =~= lines);
        assert(pairs_view(out@) =~= Seq::<(int, int)>::empty());
        if spec_parse_lines(lines) is Ok {
            let rest = spec_parse_lines(lines)->Ok_0;
            assert(pairs_view(out@) + rest =~= rest);
        }
    }
    while i < parts.len()
        invariant
            views(parts@) == lines,
            lines == spec_split(data@, 10u8),
            parts@.len() == lines.len(),
            0 <= i <= lines.len(),
            forall|j: int| 0 <= j < out@.len() ==> (#[trigger] out@[j]).0.wf() && out@[j].1.wf(),
            spec_parse_lines(lines) == (match spec_parse_lines(lines.skip(i as int)) {
                Ok(rest) => Ok::<Seq<(int, int)>, LogError>(pairs_view(out@) + rest),
                Err(e) => Err(e),
            }),
        decreases lines.len() - i,
    {
        proof {
            assert(lines.skip(i as int)[0] == lines[i as int]);
            assert(lines.skip(i as int).drop_first() =~= lines.skip(i as int + 1));
            assert(parts@[i as int]@ == views(parts@)[i as int]);
        }
        let line = &parts[i];
        if line.len() > 0 {
            match parse_line(line.as_slice()) {
                Err(e) => {
                    proof {
                        assert(lines[i as int].len() > 0);
                        assert(spec_parse_line(lines[i as int]) == Err::<(int, int), LogError>(e));
                        assert(spec_parse_lines(lines.skip(i as int)) == Err::<
                            Seq<(int, int)>,
                            LogError,
                        >(e));
                        assert(spec_parse_lines(lines) == Err::<Seq<(int, int)>, LogError>(e));
                    }
                    return Err(e);
                },
                Ok(p) => {
                    let ghost old_out = out@;
                    out.push(p);
                    proof {
                        let pv = (p.0.millis as int, p.1.millis as int);
                        assert(pairs_view(out@) =~= pairs_view(old_out).push(pv));
                        if spec_parse_lines(lines.skip(i as int + 1)) is Ok {
                            let rest = spec_parse_lines(lines.skip(i as int + 1))->Ok_0;
                            assert(pairs_view(old_out) + (seq![pv] + rest) =~= pairs_view(out@)
                                + rest);
                        }
                    }
                },
            }
        }
        i = i + 1;
    }
    proof {
        assert(lines.skip(i as int) =~= Seq::<Seq<u8>>::empty());
        if spec_parse_lines(lines.skip(i as int)) is Ok {
            let rest = spec_parse_lines(lines.skip(i as int))->Ok_0;
            assert(pairs_view(out@) + rest =~= pairs_view(out@));
        }
    }
    Ok(out)
}

/// The signed 32-bit integer a text field denotes: an optional sign, then
/// digits, within the `i32` range.
pub open spec fn spec_parse_int(t: Seq<u8>) -> Option<int> {
    if t.len() >= 1 && (t[0] == 43 || t[0] == 45) {
        if int_ok(t.drop_first()) {
            let v = digits_val(t.drop_first());
            let sv: int = if t[0] == 45 {
                -v
            } else {
                v
            };
            if -2147483648 <= sv <= 2147483647 {
                Some(sv)
            } else {
                None
            }
        } else {
            None
        }
    } else if int_ok(t) {
        let v = digits_val(t);
        if v <= 2147483647 {
            Some(v)
        } else {
            None
        }
    } else {
        None
    }
}

/// What a temperature pseudo-file's content denotes: one trailing newline is
/// tolerated, and the rest must be a signed 32-bit integer of millidegrees.
pub open spec fn spec_parse_temp(s: Seq<u8>) -> Option<int> {
    if s.len() > 0 && s.last() == 10 {
        spec_parse_int(s.drop_last())
    } else {
        spec_parse_int(s)
    }
}

/// The temperature reader's computation: interpret a pseudo-file's bytes as
/// millidegrees and scale them to degrees, exactly, as a fixed-point value.
/// Content that is not a 32-bit integer is a `Parse` error.
pub fn parse_temperature(data: &[u8]) -> (r: Result<Fixed, LogError>)
    ensures
        r matches Ok(f) ==> spec_parse_temp(data@) == Some(f.millis as int) && f.wf(),
        r matches Err(e) ==> spec_parse_temp(data@) is None && e == LogError::Parse,
{
    let end: usize = if data.len() > 0 && data[data.len() - 1] == 10 {
        data.len() - 1
    } else {
        data.len()
    };
    let ghost t = if data@.len() > 0 && data@.last() == 10 {
        data@.drop_last()
    } else {
        data@
    };
    proof {
        assert(t =~= data@.subrange(0, end as int));
    }
    let signed = end >= 1 && (data[0] == 43 || data[0] == 45);
    let neg = end >= 1 && data[0] == 45;
    let digits: Vec<u8> = if signed {
        copy_range(data, 1, end)
    } else {
        copy_range(data, 0, end)
    };
    proof {
        if signed {
            assert(digits@ =~= t.drop_first());
        } else {
            assert(digits@ =~= t);
        }
    }
    match parse_digits_limited(digits.as_slice(), 2147483648) {
        None => Err(LogError::Parse),
        Some(v) => {
            if !neg && v > 2147483647 {
                Err(LogError::Parse)
            } else {
                let millis: i128 = if neg {
                    -v
                } else {
                    v
                };
                Ok(Fixed { millis })
            }
        },
    }
}

} // verus!
