use vstd::prelude::*;

use vstd::arithmetic::div_mod::lemma_fundamental_div_mod;
use vstd::arithmetic::mul::lemma_mul_inequality;

use crate::error::LogError;
use crate::fixed::{Fixed, FIXED_MAX_MILLIS};
use crate::parser::pairs_view;

verus! {

/// Every pair of the sequence is within the fixed-point bounds.
pub open spec fn wf_pairs(s: Seq<(Fixed, Fixed)>) -> bool {
    forall|i: int| 0 <= i < s.len() ==> (#[trigger] s[i]).0.wf() && s[i].1.wf()
}

/// Well-formedness survives any rearrangement, such as sorting: a sequence
/// drawn from the elements of a well-formed one is well-formed.
pub proof fn lemma_wf_pairs_of_contained(a: Seq<(Fixed, Fixed)>, b: Seq<(Fixed, Fixed)>)
    requires
        wf_pairs(a),
        forall|x: (Fixed, Fixed)| b.contains(x) ==> a.contains(x),
    ensures
        wf_pairs(b),
{
    assert forall|i: int| 0 <= i < b.len() implies (#[trigger] b[i]).0.wf() && b[i].1.wf() by {
        assert(b.contains(b[i]));
        assert(a.contains(b[i]));
        let j = choose|j: int| 0 <= j < a.len() && a[j] == b[i];
        assert(a[j].0.wf() && a[j].1.wf());
    }
}

/// The sum of the first `k` x components of the window at `lo`, each made
/// relative to `first`.
pub open spec fn sum_rel_x(s: Seq<(Fixed, Fixed)>, first: int, lo: int, k: nat) -> int
    decreases k,
{
    if k == 0 {
        0
    } else {
        sum_rel_x(s, first, lo, (k - 1) as nat) + (s[lo + k - 1].0.millis - first)
    }
}

/// The sum of the first `k` y components of the window at `lo`.
pub open spec fn sum_y(s: Seq<(Fixed, Fixed)>, lo: int, k: nat) -> int
    decreases k,
{
    if k == 0 {
        0
    } else {
        sum_y(s, lo, (k - 1) as nat) + s[lo + k - 1].1.millis
    }
}

/// Integer division rounding toward zero, the rounding the averaging uses.
pub open spec fn trunc_div(a: int, n: int) -> int {
    if a >= 0 {
        a / n
    } else {
        -((-a) / n)
    }
}

/// The averaged series: floor(len/n) points; point `i` averages the x
/// components of window `i` relative to the first x of the whole input, and
/// the y components as they stand.
pub open spec fn spec_average(s: Seq<(Fixed, Fixed)>, n: nat) -> Seq<(int, int)> {
    Seq::new(
        s.len() / n,
        |i: int|
            (
                trunc_div(sum_rel_x(s, s[0].0.millis as int, i * n, n), n as int),
                trunc_div(sum_y(s, i * n, n), n as int),
            ),
    )
}

/// Partial sums of a window stay within `k` terms' worth of the bounds.
proof fn lemma_sum_bounds(s: Seq<(Fixed, Fixed)>, first: int, lo: int, k: nat)
    requires
        wf_pairs(s),
        -FIXED_MAX_MILLIS <= first <= FIXED_MAX_MILLIS,
        0 <= lo,
        lo + k <= s.len(),
    ensures
        -(k * (2 * FIXED_MAX_MILLIS)) <= sum_rel_x(s, first, lo, k) <= k * (2 * FIXED_MAX_MILLIS),
        -(k * FIXED_MAX_MILLIS) <= sum_y(s, lo, k) <= k * FIXED_MAX_MILLIS,
    decreases k,
{
    if k == 0 {
    } else {
        lemma_sum_bounds(s, first, lo, (k - 1) as nat);
        assert(s[lo + k - 1].0.wf() && s[lo + k - 1].1.wf());
        assert((k - 1) * (2 * FIXED_MAX_MILLIS) + (2 * FIXED_MAX_MILLIS) == k * (2
            * FIXED_MAX_MILLIS)) by (nonlinear_arith)
            requires
                k >= 1,
        ;
        assert((k - 1) * FIXED_MAX_MILLIS + FIXED_MAX_MILLIS == k * FIXED_MAX_MILLIS)
            by (nonlinear_arith)
            requires
                k >= 1,
        ;
    }
}

/// Divide rounding toward zero, as the averaging defines it.
fn div_trunc(a: i128, n: i128) -> (r: i128)
    requires
        n >= 1,
        a >= -i128::MAX,
    ensures
        r == trunc_div(a as int, n as int),
{
    if a >= 0 {
        let q = (a as u128) / (n as u128);
        proof {
            assert(a as int / n as int <= a as int) by (nonlinear_arith)
                requires
                    a >= 0,
                    n >= 1,
            ;
            assert(a as int / n as int >= 0) by (nonlinear_arith)
                requires
                    a >= 0,
                    n >= 1,
            ;
        }
        q as i128
    } else {
        let m = -a;
        let q = (m as u128) / (n as u128);
        proof {
            assert(m as int / n as int <= m as int) by (nonlinear_arith)
                requires
                    m >= 0,
                    n >= 1,
            ;
            assert(m as int / n as int >= 0) by (nonlinear_arith)
                requires
                    m >= 0,
                    n >= 1,
            ;
        }
        -(q as i128)
    }
}

/// Downsample a sorted, parsed log into fixed non-overlapping windows of `n`
/// pairs, averaging both axes; the x axis is first made relative to the very
/// first pair's timestamp. Exactly floor(len/n) points come out, the
/// trailing remainder is dropped, and an empty input or a zero window is a
/// `Domain` error.
pub fn average(data: &Vec<(Fixed, Fixed)>, n: usize) -> (r: Result<Vec<(Fixed, Fixed)>, LogError>)
    requires
        wf_pairs(data@),
    ensures
        r is Err <==> (data@.len() == 0 || n == 0),
        r matches Err(e) ==> e == LogError::Domain,
        r matches Ok(v) ==> pairs_view(v@) == spec_average(data@, n as nat) && v@.len() == data@.len() as int
            / n as int,
{
    if n == 0 || data.len() == 0 {
        return Err(LogError::Domain);
    }
    let out_len = data.len() / n;
    let first = data[0].0.millis;
    let ghost goal = spec_average(data@, n as nat);
    proof {
        assert(goal.len() == out_len) by {
            assert(data@.len() / n as nat == (data@.len() as int / n as int));
        }
    }
    let mut out: Vec<(Fixed, Fixed)> = Vec::new();
    let mut i: usize = 0;
    proof {
        assert(pairs_view(out@) =~= goal.subrange(0, 0));
    }
    while i < out_len
        invariant
            wf_pairs(data@),
            n >= 1,
            data@.len() >= 1,
            first == data@[0].0.millis,
            out_len == data@.len() as int / n as int,
            data@.len() <= usize::MAX,
            goal == spec_average(data@, n as nat),
            goal.len() == out_len,
            0 <= i <= out_len,
            out@.len() == i,
            pairs_view(out@) == goal.subrange(0, i as int),
        decreases out_len - i,
    {
        proof {
            lemma_fundamental_div_mod(data@.len() as int, n as int);
            lemma_mul_inequality(i + 1, out_len as int, n as int);
            assert((i + 1) * n <= out_len * n);
            assert(out_len * n <= data@.len()) by (nonlinear_arith)
                requires
                    data@.len() == n * out_len + data@.len() as int % (n as int),
                    data@.len() as int % (n as int) >= 0,
            ;
            assert(i * n + n == (i + 1) * n) by (nonlinear_arith);
        }
        let lo = i * n;
        let mut cx: i128 = 0;
        let mut cy: i128 = 0;
        let mut j: usize = 0;
        while j < n
            invariant
                wf_pairs(data@),
                n >= 1,
                data@.len() >= 1,
                first == data@[0].0.millis,
                -FIXED_MAX_MILLIS <= first <= FIXED_MAX_MILLIS,
                lo == i * n,
                lo + n <= data@.len(),
                data@.len() <= usize::MAX,
                0 <= j <= n,
                cx == sum_rel_x(data@, first as int, lo as int, j as nat),
                cy == sum_y(data@, lo as int, j as nat),
                -(j * (2 * FIXED_MAX_MILLIS)) <= cx <= j * (2 * FIXED_MAX_MILLIS),
                -(j * FIXED_MAX_MILLIS) <= cy <= j * FIXED_MAX_MILLIS,
            decreases n - j,
        {
            let idx = lo + j;
            let e = data[idx];
            proof {
                assert(e.0.wf() && e.1.wf());
                assert(j * (2 * FIXED_MAX_MILLIS) + 2 * FIXED_MAX_MILLIS == (j + 1) * (2
                    * FIXED_MAX_MILLIS)) by (nonlinear_arith);
                assert(j * FIXED_MAX_MILLIS + FIXED_MAX_MILLIS == (j + 1) * FIXED_MAX_MILLIS)
                    by (nonlinear_arith);
                assert((j + 1) * (2 * FIXED_MAX_MILLIS) <= n * (2 * FIXED_MAX_MILLIS)
                    && (j + 1) * FIXED_MAX_MILLIS <= n * FIXED_MAX_MILLIS) by (nonlinear_arith)
                    requires
                        j + 1 <= n,
                ;
                assert(n * (2 * FIXED_MAX_MILLIS) <= 0x10000000000000000 * (2 * FIXED_MAX_MILLIS))
                    by (nonlinear_arith)
                    requires
                        n <= 0x10000000000000000,
                ;
            }
            cx = cx + (e.0.millis - first);
            cy = cy + e.1.millis;
            proof {
                assert(sum_rel_x(data@, first as int, lo as int, (j + 1) as nat) == sum_rel_x(
                    data@,
                    first as int,
                    lo as int,
                    j as nat,
                ) + (data@[lo + j].0.millis - first));
                assert(sum_y(data@, lo as int, (j + 1) as nat) == sum_y(data@, lo as int, j as nat)
                    + data@[lo + j].1.millis);
            }
            j = j + 1;
        }
        let ni: i128 = n as i128;
        let ax = div_trunc(cx, ni);
        let ay = div_trunc(cy, ni);
        let ghost old_out = out@;
        out.push((Fixed { millis: ax }, Fixed { millis: ay }));
        proof {
            let pv = (ax as int, ay as int);
            assert(goal[i as int] == pv);
            assert(pairs_view(out@) =~= pairs_view(old_out).push(pv));
            assert(pairs_view(out@) =~= goal.subrange(0, i + 1));
        }
        i = i + 1;
    }
    proof {
        assert(goal.subrange(0, out_len as int) =~= goal);
    }
    Ok(out)
}

/// With a window of one, averaging returns the input itself, each x made
/// relative to the first timestamp and each y unchanged.
pub proof fn lemma_average_window_one(s: Seq<(Fixed, Fixed)>)
    requires
        s.len() >= 1,
    ensures
        spec_average(s, 1) == Seq::new(
            s.len(),
            |i: int| (s[i].0.millis - s[0].0.millis, s[i].1.millis as int),
        ),
{
    let first = s[0].0.millis as int;
    let plain = Seq::new(s.len(), |i: int| (s[i].0.millis - s[0].0.millis, s[i].1.millis as int));
    assert(s.len() / 1 == s.len());
    assert forall|i: int| 0 <= i < s.len() implies spec_average(s, 1)[i] == plain[i] by {
        assert(sum_rel_x(s, first, i * 1, 0) == 0);
        assert(sum_y(s, i * 1, 0) == 0);
        assert(i * 1 == i);
        assert(sum_rel_x(s, first, i, 1nat) == s[i].0.millis - first);
        assert(sum_y(s, i, 1nat) == s[i].1.millis);
        assert(trunc_div(s[i].0.millis - first, 1) == s[i].0.millis - first);
        assert(trunc_div(s[i].1.millis as int, 1) == s[i].1.millis);
    };
    assert(spec_average(s, 1) =~= plain);
}

} // verus!
