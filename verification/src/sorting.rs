use vstd::prelude::*;

use vstd::seq_lib::group_filter_ensures;
use vstd::seq_lib::group_to_multiset_ensures;

use crate::fixed::Fixed;

verus! {

/// The total order the log is sorted by: timestamp first, value second.
pub open spec fn pair_le(a: (Fixed, Fixed), b: (Fixed, Fixed)) -> bool {
    a.0.millis < b.0.millis || (a.0.millis == b.0.millis && a.1.millis <= b.1.millis)
}

/// Non-decreasing under `pair_le`; in particular entries with equal
/// timestamps stand in order of value.
pub open spec fn sorted_pairs(s: Seq<(Fixed, Fixed)>) -> bool {
    forall|i: int, j: int| 0 <= i < j < s.len() ==> pair_le(#[trigger] s[i], #[trigger] s[j])
}

/// The order is total: any two fixed-point pairs compare, one way or the
/// other; no input can make the comparison indeterminate.
pub proof fn lemma_pair_le_total(a: (Fixed, Fixed), b: (Fixed, Fixed))
    ensures
        pair_le(a, b) || pair_le(b, a),
        pair_le(a, b) && pair_le(b, a) ==> a == b,
{
}

/// The predicate selecting the occurrences of one pair value.
pub open spec fn eq_pair(p: (Fixed, Fixed)) -> spec_fn((Fixed, Fixed)) -> bool {
    |e: (Fixed, Fixed)| e == p
}

/// Whether `data[k]` must come strictly after `x` in the sorted order.
fn gt_at(data: &Vec<(Fixed, Fixed)>, k: usize, x: &(Fixed, Fixed)) -> (r: bool)
    requires
        k < data@.len(),
    ensures
        r == !pair_le(data@[k as int], *x),
{
    let e = data[k];
    if e.0.millis != x.0.millis {
        e.0.millis > x.0.millis
    } else {
        e.1.millis > x.1.millis
    }
}

/// Sort the parsed log ascending by (timestamp, value). The result is
/// non-decreasing in that order and holds exactly the input's pairs. The
/// order is total on every input: a `Fixed` has no value that would make two
/// pairs incomparable.
pub fn sort(data: &mut Vec<(Fixed, Fixed)>)
    ensures
        sorted_pairs(final(data)@),
        final(data)@.to_multiset() == old(data)@.to_multiset(),
        final(data)@.len() == old(data)@.len(),
        forall|x: (Fixed, Fixed)| final(data)@.contains(x) ==> old(data)@.contains(x),
{
    let ghost orig = old(data)@;
    let mut i: usize = 1;
    while i < data.len()
        invariant
            1 <= i <= data@.len() || data@.len() == 0,
            data@.len() == orig.len(),
            sorted_pairs(data@.subrange(0, i as int)) || data@.len() == 0,
            data@.to_multiset() == orig.to_multiset(),
        decreases data@.len() - i,
    {
        let x = data[i];
        let mut j: usize = i;
        while j > 0 && gt_at(data, j - 1, &x)
            invariant
                0 <= j <= i < data@.len(),
                forall|t: int| j <= t < i ==> !pair_le(#[trigger] data@[t], x),
            decreases j,
        {
            j = j - 1;
        }
        let ghost pre = data@;
        let moved = data.remove(i);
        data.insert(j, moved);
        proof {
            broadcast use group_to_multiset_ensures;

            assert(moved == x);
            let now = data@;
            assert(now == pre.remove(i as int).insert(j as int, x));
            pre.remove_ensures(i as int);
            pre.remove(i as int).insert_ensures(j as int, x);
            // The multiset is unchanged: one occurrence of x left and came
            // back.
            assert(pre.contains(x)) by {
                assert(pre[i as int] == x);
            }
            assert(pre.to_multiset().count(x) > 0);
            assert(pre.remove(i as int).to_multiset() =~= pre.to_multiset().remove(x));
            assert(now.to_multiset() =~= pre.to_multiset().remove(x).insert(x));
            assert(pre.to_multiset().remove(x).insert(x) =~= pre.to_multiset());
            // Where each element now stands.
            assert(forall|k: int| 0 <= k < j ==> now[k] == pre[k]);
            assert(now[j as int] == x);
            assert(forall|k: int| j < k <= i ==> now[k] == pre[k - 1]);
            // The grown prefix is sorted.
            assert forall|u: int, v: int| 0 <= u < v < i + 1 implies pair_le(
                #[trigger] now[u],
                #[trigger] now[v],
            ) by {
                if j > 0 {
                    assert(pair_le(pre[j - 1], x));
                }
                if u == j {
                    if v > j {
                        assert(!pair_le(pre[v - 1], x));
                    }
                } else if v == j {
                    if u < j && j > 0 {
                        assert(pair_le(pre[u], pre[j - 1]) || u == j - 1);
                    }
                } else if u < j && v > j {
                    if u < v - 1 {
                        assert(pair_le(pre[u], pre[v - 1]));
                    }
                } else {
                }
            }
            assert(sorted_pairs(now.subrange(0, i + 1))) by {
                assert(forall|k: int| 0 <= k < i + 1 ==> #[trigger] now.subrange(0, i + 1)[k]
                    == now[k]);
            }
        }
        i = i + 1;
    }
    proof {
        if data@.len() == 0 {
            assert(sorted_pairs(data@));
        } else {
            assert(data@.subrange(0, i as int) =~= data@);
        }
        assert forall|x: (Fixed, Fixed)| data@.contains(x) implies orig.contains(x) by {
            broadcast use group_to_multiset_ensures;

            assert(data@.to_multiset().count(x) > 0);
        }
    }
}

/// The number of occurrences of `x` in a sequence equals the length of the
/// subsequence of its occurrences.
pub proof fn lemma_filter_count(s: Seq<(Fixed, Fixed)>, x: (Fixed, Fixed))
    ensures
        s.filter(eq_pair(x)).len() == s.to_multiset().count(x),
    decreases s.len(),
{
    broadcast use group_to_multiset_ensures;

    reveal(Seq::filter);
    if s.len() == 0 {
        assert(s.to_multiset().count(x) == 0) by {
            assert(!s.contains(x));
        }
    } else {
        let p = s.drop_last();
        lemma_filter_count(p, x);
        assert(s =~= p.push(s.last()));
        assert(s.to_multiset() =~= p.to_multiset().insert(s.last()));
        if s.last() == x {
            assert(s.filter(eq_pair(x)) == p.filter(eq_pair(x)).push(s.last()));
        } else {
            assert(s.filter(eq_pair(x)) == p.filter(eq_pair(x)));
        }
    }
}

/// Sorting is stable: since pairs are compared in full, the subsequence of
/// occurrences of any one pair value is the same, in the same relative
/// order, in the sorted output as in the input. This holds of any
/// rearrangement that keeps the multiset of pairs, as `sort` does.
pub proof fn lemma_sort_stable(s: Seq<(Fixed, Fixed)>, t: Seq<(Fixed, Fixed)>, p: (Fixed, Fixed))
    requires
        t.to_multiset() == s.to_multiset(),
    ensures
        t.filter(eq_pair(p)) == s.filter(eq_pair(p)),
{
    broadcast use group_filter_ensures;

    lemma_filter_count(s, p);
    lemma_filter_count(t, p);
    let fs = s.filter(eq_pair(p));
    let ft = t.filter(eq_pair(p));
    assert(fs.len() == ft.len());
    assert forall|k: int| 0 <= k < fs.len() implies fs[k] == ft[k] by {
        assert(eq_pair(p)(fs[k]));
        assert(eq_pair(p)(ft[k]));
    }
    assert(fs =~= ft);
}

} // verus!
