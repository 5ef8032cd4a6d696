use vstd::prelude::*;

use crate::bytes::{
    all_digits, digits_val, is_digit, lemma_spec_digits_shape, lemma_spec_digits_val,
    lemma_split_at_sep, lemma_split_no_sep, spec_digits, spec_split,
};
use crate::fixed::FIXED_MAX_MILLIS;
use crate::parser::{
    frac_ok, frac_scale, int_ok, pairs_view, spec_parse_fixed, spec_parse_line, spec_parse_lines,
    spec_parse_log, spec_parse_mag,
};
use crate::writer::{
    is_num_byte, lemma_render_fixed_bytes, spec_format_line, spec_frac_digits, spec_render_fixed,
    spec_render_mag, Reading, MAX_TIMESTAMP_MS,
};
use crate::error::LogError;

verus! {

/// The (timestamp, value) pair, in thousandths, that parsing a written
/// reading recovers.
pub open spec fn reading_pair(r: Reading) -> (int, int) {
    (r.timestamp_ms * 1000, r.value.millis as int)
}

/// The integer pairs of a reading sequence, in order.
pub open spec fn readings_view(rs: Seq<Reading>) -> Seq<(int, int)> {
    rs.map_values(|r: Reading| reading_pair(r))
}

/// The bytes the log writer emits for a sequence of readings, in order.
pub open spec fn spec_log_bytes(rs: Seq<Reading>) -> Seq<u8>
    decreases rs.len(),
{
    if rs.len() == 0 {
        Seq::empty()
    } else {
        spec_format_line(rs[0]) + spec_log_bytes(rs.drop_first())
    }
}

/// The row body the writer emits for one reading, without its trailing
/// newline.
pub open spec fn spec_line_body(r: Reading) -> Seq<u8> {
    spec_digits(r.timestamp_ms as nat) + seq![44u8] + spec_render_fixed(r.value.millis as int)
}

/// Writing one more reading appends exactly its row: by `LogBuffer::push`'s
/// contract, a run of pushes therefore emits, over its flushes and what is
/// still buffered, precisely `spec_log_bytes` of the readings pushed.
pub proof fn lemma_log_bytes_snoc(rs: Seq<Reading>, r: Reading)
    ensures
        spec_log_bytes(rs.push(r)) == spec_log_bytes(rs) + spec_format_line(r),
    decreases rs.len(),
{
    if rs.len() == 0 {
        assert(rs.push(r)[0] == r);
        assert(rs.push(r).drop_first() =~= Seq::<Reading>::empty());
        assert(spec_log_bytes(Seq::<Reading>::empty()) == Seq::<u8>::empty());
        assert(spec_log_bytes(rs.push(r)) =~= spec_log_bytes(rs) + spec_format_line(r));
    } else {
        assert(rs.push(r).drop_first() =~= rs.drop_first().push(r));
        lemma_log_bytes_snoc(rs.drop_first(), r);
        assert(spec_log_bytes(rs.push(r)) =~= spec_log_bytes(rs) + spec_format_line(r));
    }
}

/// Parsing a rendered fixed-point value recovers it exactly.
pub proof fn lemma_render_parse_fixed(m: int)
    requires
        -FIXED_MAX_MILLIS <= m <= FIXED_MAX_MILLIS,
    ensures
        spec_parse_fixed(spec_render_fixed(m)) == Some(m),
{
    let mag: nat = if m < 0 {
        (-m) as nat
    } else {
        m as nat
    };
    let q = mag / 1000;
    let f = mag % 1000;
    vstd::arithmetic::div_mod::lemma_fundamental_div_mod(mag as int, 1000);
    assert(mag == 1000 * q + f);
    let digs = spec_digits(q);
    lemma_spec_digits_shape(q);
    lemma_spec_digits_val(q);
    assert(forall|i: int| 0 <= i < digs.len() ==> #[trigger] digs[i] != 46);
    let rmag = spec_render_mag(mag);
    // First: spec_parse_mag(rmag) == Some(mag).
    if f == 0 {
        lemma_split_no_sep(digs, 46u8);
        assert(spec_split(rmag, 46u8) == seq![digs]);
        assert(spec_parse_mag(rmag) == Some((q * 1000) as int));
        assert(q * 1000 == mag) by (nonlinear_arith)
            requires
                mag == 1000 * q + f,
                f == 0,
        ;
    } else {
        let fd = spec_frac_digits(f);
        assert(f / 100 < 10 && (f / 10) % 10 < 10 && f % 10 < 10);
        assert(all_digits(fd) && 1 <= fd.len() <= 3) by {
            assert(forall|i: int| 0 <= i < fd.len() ==> is_digit(#[trigger] fd[i]));
        }
        assert(forall|i: int| 0 <= i < fd.len() ==> #[trigger] fd[i] != 46);
        lemma_split_at_sep(digs, fd, 46u8);
        lemma_split_no_sep(fd, 46u8);
        assert(rmag =~= digs + seq![46u8] + fd);
        assert(spec_split(rmag, 46u8) == seq![digs] + seq![fd]);
        assert(spec_split(rmag, 46u8).len() == 2);
        assert(spec_split(rmag, 46u8)[0] == digs && spec_split(rmag, 46u8)[1] == fd);
        assert(int_ok(digs) && frac_ok(fd));
        // The fraction digits read back as f, whatever trailing zeros were
        // dropped.
        assert(digits_val(Seq::<u8>::empty()) == 0);
        let a = (48 + f / 100) as u8;
        let b = (48 + (f / 10) % 10) as u8;
        let c = (48 + f % 10) as u8;
        assert(digits_val(seq![a]) == f / 100) by {
            assert(seq![a].drop_last() =~= Seq::<u8>::empty());
        }
        assert(digits_val(seq![a, b]) == (f / 100) * 10 + (f / 10) % 10) by {
            assert(seq![a, b].drop_last() =~= seq![a]);
            assert(digits_val(seq![a]) == f / 100) by {
                assert(seq![a].drop_last() =~= Seq::<u8>::empty());
            }
        }
        assert(digits_val(seq![a, b, c]) == ((f / 100) * 10 + (f / 10) % 10) * 10 + f % 10) by {
            assert(seq![a, b, c].drop_last() =~= seq![a, b]);
            assert(digits_val(seq![a, b]) == (f / 100) * 10 + (f / 10) % 10) by {
                assert(seq![a, b].drop_last() =~= seq![a]);
                assert(digits_val(seq![a]) == f / 100) by {
                    assert(seq![a].drop_last() =~= Seq::<u8>::empty());
                }
            }
        }
        assert(((f / 100) * 10 + (f / 10) % 10) * 10 + f % 10 == f) by (nonlinear_arith)
            requires
                0 <= f < 1000,
        ;
        if f % 10 != 0 {
            assert(fd == seq![a, b, c]);
            assert(digits_val(fd) * frac_scale(fd.len()) == f);
        } else if f % 100 != 0 {
            assert(fd == seq![a, b]);
            assert(((f / 100) * 10 + (f / 10) % 10) * 10 == f) by (nonlinear_arith)
                requires
                    0 <= f < 1000,
                    f % 10 == 0,
            ;
            assert(digits_val(fd) * frac_scale(fd.len()) == f);
        } else {
            assert(fd == seq![a]);
            assert((f / 100) * 100 == f) by (nonlinear_arith)
                requires
                    0 <= f < 1000,
                    f % 100 == 0,
                    f % 10 == 0,
            ;
            assert(digits_val(fd) * frac_scale(fd.len()) == f);
        }
        assert(spec_parse_mag(rmag) == Some((q * 1000 + f) as int));
        assert(q * 1000 + f == mag) by (nonlinear_arith)
            requires
                mag == 1000 * q + f,
        ;
    }
    assert(spec_parse_mag(rmag) == Some(mag as int));
    // Then: the sign wrapper.
    assert(rmag.len() >= 1);
    assert(rmag[0] == digs[0]);
    assert(is_digit(rmag[0]));
    if m < 0 {
        let s = spec_render_fixed(m);
        assert(s =~= seq![45u8] + rmag);
        assert(s[0] == 45);
        assert(s.drop_first() =~= rmag);
        assert(spec_parse_fixed(s) == Some(m));
    } else {
        let s = spec_render_fixed(m);
        assert(s == rmag);
        assert(!(s[0] == 43 || s[0] == 45));
        assert(spec_parse_fixed(s) == Some(m));
    }
}

/// One written row, its newline dropped, parses back to its reading's pair;
/// and the row body holds no newline byte.
pub proof fn lemma_format_line_parses(r: Reading)
    requires
        r.wf(),
    ensures
        spec_format_line(r) == spec_line_body(r) + seq![10u8],
        spec_line_body(r).len() > 0,
        forall|i: int| 0 <= i < spec_line_body(r).len() ==> #[trigger] spec_line_body(r)[i] != 10,
        spec_parse_line(spec_line_body(r)) == Ok::<(int, int), LogError>(reading_pair(r)),
{
    let ts = r.timestamp_ms as nat;
    let digs = spec_digits(ts);
    let rend = spec_render_fixed(r.value.millis as int);
    let body = spec_line_body(r);
    lemma_spec_digits_shape(ts);
    lemma_spec_digits_val(ts);
    lemma_render_fixed_bytes(r.value.millis as int);
    assert(spec_format_line(r) =~= body + seq![10u8]);
    assert(forall|i: int| 0 <= i < body.len() ==> #[trigger] body[i] != 10) by {
        assert(forall|i: int| 0 <= i < digs.len() ==> #[trigger] digs[i] != 10);
        assert(forall|i: int| 0 <= i < rend.len() ==> is_num_byte(#[trigger] rend[i]));
        assert(forall|i: int| 0 <= i < rend.len() ==> #[trigger] rend[i] != 10);
    }
    // The body splits on the comma into exactly the two written fields.
    assert(forall|i: int| 0 <= i < digs.len() ==> #[trigger] digs[i] != 44);
    assert(forall|i: int| 0 <= i < rend.len() ==> #[trigger] rend[i] != 44);
    lemma_split_at_sep(digs, rend, 44u8);
    lemma_split_no_sep(rend, 44u8);
    let fields = spec_split(body, 44u8);
    assert(fields == seq![digs] + seq![rend]);
    assert(fields.len() == 2);
    assert(fields[0] == digs && fields[1] == rend);
    // The timestamp field parses as an unsigned integer in range.
    assert(forall|i: int| 0 <= i < digs.len() ==> #[trigger] digs[i] != 46);
    lemma_split_no_sep(digs, 46u8);
    assert(int_ok(digs));
    assert(spec_parse_mag(digs) == Some((ts * 1000) as int));
    assert(is_digit(digs[0]));
    assert(ts * 1000 <= FIXED_MAX_MILLIS) by (nonlinear_arith)
        requires
            0 <= ts <= MAX_TIMESTAMP_MS,
    ;
    assert(spec_parse_fixed(digs) == Some(ts * 1000 as int));
    // The value field parses back to the value.
    lemma_render_parse_fixed(r.value.millis as int);
    assert(spec_parse_line(body) == Ok::<(int, int), LogError>(reading_pair(r)));
}

/// Round trip: the bytes the log writer emits for any sequence of
/// well-formed readings parse back, without any parse or format error, to
/// exactly those readings' pairs, in the order they were written (and so,
/// in particular, as the same multiset of readings).
pub proof fn lemma_log_round_trip(rs: Seq<Reading>)
    requires
        forall|i: int| 0 <= i < rs.len() ==> (#[trigger] rs[i]).wf(),
    ensures
        spec_parse_log(spec_log_bytes(rs)) == Ok::<Seq<(int, int)>, LogError>(readings_view(rs)),
    decreases rs.len(),
{
    if rs.len() == 0 {
        let lines = spec_split(Seq::<u8>::empty(), 10u8);
        assert(lines == seq![Seq::<u8>::empty()]);
        assert(lines[0].len() == 0);
        assert(lines.drop_first() =~= Seq::<Seq<u8>>::empty());
        assert(spec_parse_lines(Seq::<Seq<u8>>::empty()) == Ok::<Seq<(int, int)>, LogError>(
            Seq::empty(),
        ));
        assert(spec_parse_lines(lines) == Ok::<Seq<(int, int)>, LogError>(Seq::empty()));
        assert(readings_view(rs) =~= Seq::<(int, int)>::empty());
    } else {
        let r0 = rs[0];
        let tail = rs.drop_first();
        assert(forall|i: int| 0 <= i < tail.len() ==> (#[trigger] tail[i]).wf());
        lemma_log_round_trip(tail);
        lemma_format_line_parses(r0);
        let body = spec_line_body(r0);
        let rest = spec_log_bytes(tail);
        let whole = spec_log_bytes(rs);
        assert(whole =~= body + seq![10u8] + rest);
        lemma_split_at_sep(body, rest, 10u8);
        let lines = spec_split(whole, 10u8);
        assert(lines == seq![body] + spec_split(rest, 10u8));
        assert(lines.len() >= 1 && lines[0] == body);
        assert(lines.drop_first() =~= spec_split(rest, 10u8));
        assert(spec_parse_lines(lines.drop_first()) == Ok::<Seq<(int, int)>, LogError>(
            readings_view(tail),
        ));
        assert(spec_parse_lines(lines) == Ok::<Seq<(int, int)>, LogError>(
            seq![reading_pair(r0)] + readings_view(tail),
        ));
        assert(seq![reading_pair(r0)] + readings_view(tail) =~= readings_view(rs));
    }
}

} // verus!
