use vstd::prelude::*;

verus! {

/// The views of a list of owned byte vectors, as a sequence of byte
/// sequences.
pub open spec fn views(l: Seq<Vec<u8>>) -> Seq<Seq<u8>> {
    l.map_values(|v: Vec<u8>| v@)
}

/// Whether `b` is an ASCII decimal digit.
pub open spec fn is_digit(b: u8) -> bool {
    48 <= b <= 57
}

/// Whether every byte of `s` is an ASCII decimal digit.
pub open spec fn all_digits(s: Seq<u8>) -> bool {
    forall|i: int| 0 <= i < s.len() ==> is_digit(#[trigger] s[i])
}

/// The value of a string of decimal digits, most significant first.
pub open spec fn digits_val(s: Seq<u8>) -> int
    decreases s.len(),
{
    if s.len() == 0 {
        0
    } else {
        digits_val(s.drop_last()) * 10 + (s.last() - 48)
    }
}

/// The shortest decimal rendering of `n`, as ASCII digit bytes.
pub open spec fn spec_digits(n: nat) -> Seq<u8>
    decreases n,
{
    if n < 10 {
        seq![(48 + n) as u8]
    } else {
        spec_digits(n / 10) + seq![(48 + n % 10) as u8]
    }
}

/// Splitting a byte sequence at every occurrence of `sep`, in the manner of
/// `str::split`: the result always has one more part than there are
/// separators, so the empty input yields one empty part.
pub open spec fn spec_split(s: Seq<u8>, sep: u8) -> Seq<Seq<u8>>
    decreases s.len(),
{
    if s.len() == 0 {
        seq![Seq::<u8>::empty()]
    } else if s[0] == sep {
        seq![Seq::<u8>::empty()] + spec_split(s.drop_first(), sep)
    } else {
        let rest = spec_split(s.drop_first(), sep);
        seq![seq![s[0]] + rest[0]] + rest.drop_first()
    }
}

/// A split always produces at least one part.
pub proof fn lemma_split_nonempty(s: Seq<u8>, sep: u8)
    ensures
        spec_split(s, sep).len() >= 1,
    decreases s.len(),
{
    if s.len() == 0 {
    } else if s[0] == sep {
    } else {
        lemma_split_nonempty(s.drop_first(), sep);
    }
}

/// Splitting a concatenation whose left part is separator-free prepends that
/// part onto the first piece of the right part's split.
pub proof fn lemma_split_append(a: Seq<u8>, b: Seq<u8>, sep: u8)
    requires
        forall|i: int| 0 <= i < a.len() ==> a[i] != sep,
    ensures
        ({
            let sb = spec_split(b, sep);
            spec_split(a + b, sep) == seq![a + sb[0]] + sb.drop_first()
        }),
    decreases a.len(),
{
    lemma_split_nonempty(b, sep);
    let sb = spec_split(b, sep);
    if a.len() == 0 {
        assert(a + b =~= b);
        assert(a + sb[0] =~= sb[0]);
        if b.len() == 0 {
            assert(spec_split(a + b, sep) =~~= seq![a + sb[0]] + sb.drop_first());
        } else if b[0] == sep {
            assert(spec_split(a + b, sep) =~~= seq![a + sb[0]] + sb.drop_first());
        } else {
            assert(spec_split(a + b, sep) =~~= seq![a + sb[0]] + sb.drop_first());
        }
    } else {
        let s = a + b;
        assert(s[0] == a[0] && s[0] != sep);
        assert(s.drop_first() =~= a.drop_first() + b);
        lemma_split_append(a.drop_first(), b, sep);
        let rest = spec_split(s.drop_first(), sep);
        assert(rest == seq![a.drop_first() + sb[0]] + sb.drop_first());
        assert(rest[0] == a.drop_first() + sb[0]);
        assert(seq![s[0]] + rest[0] =~= a + sb[0]);
        assert(rest.drop_first() =~= sb.drop_first());
        assert(spec_split(s, sep) =~~= seq![a + sb[0]] + sb.drop_first());
    }
}

/// Splitting a separator-free sequence yields that sequence alone.
pub proof fn lemma_split_no_sep(a: Seq<u8>, sep: u8)
    requires
        forall|i: int| 0 <= i < a.len() ==> a[i] != sep,
    ensures
        spec_split(a, sep) == seq![a],
{
    lemma_split_append(a, Seq::<u8>::empty(), sep);
    assert(a + Seq::<u8>::empty() =~= a);
    let sb = spec_split(Seq::<u8>::empty(), sep);
    assert(a + sb[0] =~= a);
    assert(seq![a + sb[0]] + sb.drop_first() =~~= seq![a]);
}

/// Splitting around a single separator with a separator-free left part
/// detaches that part and leaves the rest to split on its own.
pub proof fn lemma_split_at_sep(a: Seq<u8>, b: Seq<u8>, sep: u8)
    requires
        forall|i: int| 0 <= i < a.len() ==> a[i] != sep,
    ensures
        spec_split(a + seq![sep] + b, sep) == seq![a] + spec_split(b, sep),
{
    let t = seq![sep] + b;
    assert(a + seq![sep] + b =~= a + t);
    lemma_split_append(a, t, sep);
    lemma_split_nonempty(b, sep);
    assert(t[0] == sep);
    assert(t.drop_first() =~= b);
    let st = spec_split(t, sep);
    assert(st == seq![Seq::<u8>::empty()] + spec_split(b, sep));
    assert(a + st[0] =~= a);
    assert(st.drop_first() =~= spec_split(b, sep));
    assert(seq![a + st[0]] + st.drop_first() =~~= seq![a] + spec_split(b, sep));
}

/// A digit string's value is never negative.
pub proof fn lemma_digits_val_nonneg(s: Seq<u8>)
    requires
        all_digits(s),
    ensures
        digits_val(s) >= 0,
    decreases s.len(),
{
    if s.len() == 0 {
    } else {
        assert(forall|i: int|
            0 <= i < s.drop_last().len() ==> is_digit(#[trigger] s.drop_last()[i]));
        lemma_digits_val_nonneg(s.drop_last());
    }
}

/// Appending a digit multiplies the value by ten and adds the digit.
pub proof fn lemma_digits_val_push(s: Seq<u8>, d: u8)
    ensures
        digits_val(s.push(d)) == digits_val(s) * 10 + (d - 48),
{
    assert(s.push(d).drop_last() =~= s);
}

/// Extending a digit string never decreases its value, so a prefix already
/// past a nonnegative limit dooms the whole string.
pub proof fn lemma_digits_val_extend(s: Seq<u8>, i: int)
    requires
        all_digits(s),
        0 <= i <= s.len(),
    ensures
        digits_val(s) >= digits_val(s.subrange(0, i)),
    decreases s.len() - i,
{
    lemma_digits_val_nonneg(s);
    if i == s.len() {
        assert(s.subrange(0, i) =~= s);
    } else {
        let p = s.subrange(0, i);
        let q = s.subrange(0, i + 1);
        assert(q =~= p.push(s[i]));
        lemma_digits_val_push(p, s[i]);
        assert(forall|j: int| 0 <= j < p.len() ==> is_digit(#[trigger] p[j]));
        lemma_digits_val_nonneg(p);
        lemma_digits_val_extend(s, i + 1);
    }
}

/// The decimal rendering of `n` is a nonempty string of digits.
pub proof fn lemma_spec_digits_shape(n: nat)
    ensures
        spec_digits(n).len() >= 1,
        all_digits(spec_digits(n)),
    decreases n,
{
    if n < 10 {
    } else {
        lemma_spec_digits_shape(n / 10);
        let r = spec_digits(n / 10);
        let d = (48 + n % 10) as u8;
        assert(is_digit(d));
        assert(forall|i: int|
            0 <= i < (r + seq![d]).len() ==> is_digit(#[trigger] (r + seq![d])[i]));
    }
}

/// Reading the rendering of `n` back as digits recovers `n`.
pub proof fn lemma_spec_digits_val(n: nat)
    ensures
        digits_val(spec_digits(n)) == n,
    decreases n,
{
    if n < 10 {
        let s = spec_digits(n);
        assert(s.drop_last() =~= Seq::<u8>::empty());
        assert(s.last() == (48 + n) as u8);
        assert((48 + n) as u8 == 48 + n);
        assert(digits_val(s) == digits_val(Seq::<u8>::empty()) * 10 + (48 + n - 48));
    } else {
        lemma_spec_digits_val(n / 10);
        let r = spec_digits(n / 10);
        let d = (48 + n % 10) as u8;
        assert(n % 10 < 10);
        assert(d == 48 + n % 10);
        assert(r + seq![d] =~= r.push(d));
        lemma_digits_val_push(r, d);
        assert(digits_val(spec_digits(n)) == (n / 10) * 10 + n % 10);
        assert(n == (n / 10) * 10 + n % 10) by (nonlinear_arith);
    }
}

/// Prepending a partial piece onto the first part of a split; the helper the
/// splitting loop's invariant is phrased with.
pub open spec fn split_prepend(c: Seq<u8>, l: Seq<Seq<u8>>) -> Seq<Seq<u8>> {
    seq![c + l[0]] + l.drop_first()
}

/// Split a byte slice at every occurrence of `sep`, as `str::split` does.
pub fn split_bytes(data: &[u8], sep: u8) -> (r: Vec<Vec<u8>>)
    ensures
        views(r@) == spec_split(data@, sep),
{
    let ghost whole = data@;
    let mut out: Vec<Vec<u8>> = Vec::new();
    let mut cur: Vec<u8> = Vec::new();
    let mut i: usize = 0;
    proof {
        lemma_split_nonempty(whole, sep);
        assert(whole.skip(0) =~= whole);
        assert(views(out@) =~~= Seq::<Seq<u8>>::empty());
        assert(cur@ + spec_split(whole, sep)[0] =~= spec_split(whole, sep)[0]);
        assert(views(out@) + split_prepend(cur@, spec_split(whole, sep)) =~~= spec_split(
            whole,
            sep,
        ));
    }
    while i < data.len()
        invariant
            0 <= i <= whole.len(),
            data@ == whole,
            spec_split(whole, sep) == views(out@) + split_prepend(
                cur@,
                spec_split(whole.skip(i as int), sep),
            ),
        decreases whole.len() - i,
    {
        let b = data[i];
        proof {
            let tail = whole.skip(i as int);
            assert(tail[0] == whole[i as int]);
            assert(tail.drop_first() =~= whole.skip(i as int + 1));
            lemma_split_nonempty(whole.skip(i as int + 1), sep);
        }
        if b == sep {
            let ghost old_out = out@;
            let ghost old_cur = cur@;
            let done = cur;
            cur = Vec::new();
            out.push(done);
            proof {
                let next = spec_split(whole.skip(i as int + 1), sep);
                assert(views(out@) =~~= views(old_out).push(old_cur));
                assert(old_cur + Seq::<u8>::empty() =~= old_cur);
                assert(cur@ + next[0] =~= next[0]);
                assert(views(old_out) + split_prepend(
                    old_cur,
                    spec_split(whole.skip(i as int), sep),
                ) =~~= views(out@) + split_prepend(cur@, next));
            }
        } else {
            let ghost old_cur = cur@;
            cur.push(b);
            proof {
                let next = spec_split(whole.skip(i as int + 1), sep);
                assert(old_cur + (seq![whole[i as int]] + next[0]) =~= cur@ + next[0]);
                assert((seq![seq![whole[i as int]] + next[0]] + next.drop_first()).drop_first()
                    =~~= next.drop_first());
                assert(views(out@) + split_prepend(
                    old_cur,
                    spec_split(whole.skip(i as int), sep),
                ) =~~= views(out@) + split_prepend(cur@, next));
            }
        }
        i = i + 1;
    }
    proof {
        assert(whole.skip(i as int) =~= Seq::<u8>::empty());
        assert(cur@ + spec_split(Seq::<u8>::empty(), sep)[0] =~= cur@);
        assert(split_prepend(cur@, spec_split(Seq::<u8>::empty(), sep)) =~~= seq![cur@]);
    }
    let ghost old_out = out@;
    let ghost last = cur@;
    out.push(cur);
    proof {
        assert(views(out@) =~~= views(old_out).push(last));
        assert(views(old_out) + seq![last] =~~= views(out@));
    }
    out
}

/// A digit string of at most three digits stays under a thousand.
pub proof fn lemma_digits_val_small(s: Seq<u8>)
    requires
        all_digits(s),
        s.len() <= 3,
    ensures
        digits_val(s) <= 999,
        s.len() <= 2 ==> digits_val(s) <= 99,
        s.len() <= 1 ==> digits_val(s) <= 9,
    decreases s.len(),
{
    if s.len() == 0 {
    } else {
        let p = s.drop_last();
        assert(forall|i: int| 0 <= i < p.len() ==> is_digit(#[trigger] p[i]));
        lemma_digits_val_small(p);
        assert(is_digit(s.last()));
    }
}

/// Copy the bytes of `s` in positions `lo..hi` into a fresh vector.
pub fn copy_range(s: &[u8], lo: usize, hi: usize) -> (r: Vec<u8>)
    requires
        lo <= hi <= s@.len(),
    ensures
        r@ == s@.subrange(lo as int, hi as int),
{
    let mut out: Vec<u8> = Vec::new();
    let mut i: usize = lo;
    while i < hi
        invariant
            lo <= i <= hi <= s@.len(),
            out@ == s@.subrange(lo as int, i as int),
        decreases hi - i,
    {
        let ghost old_out = out@;
        out.push(s[i]);
        proof {
            assert(old_out.push(s@[i as int]) =~= s@.subrange(lo as int, i as int + 1));
        }
        i = i + 1;
    }
    out
}

} // verus!
