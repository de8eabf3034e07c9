use vstd::prelude::*;

verus! {

/// The decimal digits of `n`, most significant first, as ASCII bytes.
pub open spec fn dec_u(n: nat) -> Seq<u8>
    decreases n,
{
    if n < 10 {
        seq![(48 + n) as u8]
    } else {
        dec_u(n / 10) + seq![(48 + n % 10) as u8]
    }
}

/// The decimal text of a signed number: a minus sign before the digits of
/// its magnitude when it is negative.
pub open spec fn dec_i(i: int) -> Seq<u8> {
    if i < 0 {
        seq![45u8] + dec_u((-i) as nat)
    } else {
        dec_u(i as nat)
    }
}

/// A nonempty string of ASCII digits.
pub open spec fn all_digits(s: Seq<u8>) -> bool {
    s.len() >= 1 && forall|i: int| 0 <= i < s.len() ==> 48 <= #[trigger] s[i] <= 57
}

/// The value a digit string denotes, read left to right.
pub open spec fn dec_value(s: Seq<u8>) -> nat
    decreases s.len(),
{
    if s.len() == 0 {
        0
    } else {
        dec_value(s.drop_last()) * 10 + (s.last() - 48) as nat
    }
}

/// Every byte of a decimal rendering is an ASCII digit.
pub proof fn lemma_dec_u_digits(n: nat)
    ensures
        dec_u(n).len() >= 1,
        all_digits(dec_u(n)),
    decreases n,
{
    if n >= 10 {
        lemma_dec_u_digits(n / 10);
    }
}

/// Reading the decimal rendering of `n` back gives `n`.
pub proof fn lemma_dec_u_value(n: nat)
    ensures
        dec_value(dec_u(n)) == n,
    decreases n,
{
    if n < 10 {
        assert(dec_u(n).drop_last() =~= Seq::<u8>::empty());
        assert(dec_value(Seq::<u8>::empty()) == 0);
        assert(dec_value(dec_u(n)) == n);
    } else {
        lemma_dec_u_value(n / 10);
        assert((dec_u(n / 10) + seq![(48 + n % 10) as u8]).drop_last() =~= dec_u(n / 10));
        assert(dec_u(n).last() == (48 + n % 10) as u8);
        assert(dec_value(dec_u(n)) == (n / 10) * 10 + n % 10);
        assert((n / 10) * 10 + n % 10 == n) by (nonlinear_arith);
    }
}

/// Appends the decimal rendering of `n` to `out`.
pub fn push_dec_u64(out: &mut Vec<u8>, n: u64)
    ensures
        final(out)@ == old(out)@ + dec_u(n as nat),
    decreases n,
{
    if n >= 10 {
        push_dec_u64(out, n / 10);
        let d: u8 = (n % 10) as u8;
        out.push(48 + d);
        proof {
            assert(out@ =~= old(out)@ + dec_u(n as nat));
        }
    } else {
        let d: u8 = n as u8;
        out.push(48 + d);
        proof {
            assert(out@ =~= old(out)@ + dec_u(n as nat));
        }
    }
}

/// Appends the decimal text of a signed number to `out`.
pub fn push_dec_i64(out: &mut Vec<u8>, i: i64)
    ensures
        final(out)@ == old(out)@ + dec_i(i as int),
{
    if i >= 0 {
        push_dec_u64(out, i as u64);
    } else {
        out.push(45);
        let mag: u64 = (-(i as i128)) as u64;
        push_dec_u64(out, mag);
        proof {
            assert(out@ =~= old(out)@ + dec_i(i as int));
        }
    }
}

/// Reads an unsigned decimal number from `s[start..end]`. Gives the value
/// exactly when that range is all digits and the value fits in a `u64`.
pub fn parse_u64_digits(s: &[u8], start: usize, end: usize) -> (r: Option<u64>)
    requires
        start <= end <= s@.len(),
    ensures
        match r {
            Some(v) => all_digits(s@.subrange(start as int, end as int)) && v == dec_value(
                s@.subrange(start as int, end as int),
            ),
            None => !(all_digits(s@.subrange(start as int, end as int)) && dec_value(
                s@.subrange(start as int, end as int),
            ) <= u64::MAX),
        },
{
    let ghost whole = s@.subrange(start as int, end as int);
    if start == end {
        return None;
    }
    let mut acc: u64 = 0;
    let mut i: usize = start;
    while i < end
        invariant
            start <= i <= end <= s@.len(),
            all_digits(whole.take(i - start)) || i == start,
            acc == dec_value(whole.take(i - start)),
            whole == s@.subrange(start as int, end as int),
            start < end,
        decreases end - i,
    {
        let b = s[i];
        if b < 48 || b > 57 {
            proof {
                assert(whole[i - start] == b);
            }
            return None;
        }
        let d: u64 = (b - 48) as u64;
        if acc > (u64::MAX - d) / 10 {
            proof {
                assert(acc * 10 + d > u64::MAX) by (nonlinear_arith)
                    requires
                        acc > (u64::MAX - d) / 10,
                        0 <= d <= 9,
                ;
                lemma_dec_value_overflow(whole, i - start, d as nat);
            }
            return None;
        }
        proof {
            assert(acc * 10 + d <= u64::MAX) by (nonlinear_arith)
                requires
                    acc <= (u64::MAX - d) / 10,
                    0 <= d <= 9,
            ;
            assert(whole.take(i + 1 - start).drop_last() =~= whole.take(i - start));
            assert(whole.take(i + 1 - start).last() == b);
        }
        acc = acc * 10 + d;
        i = i + 1;
    }
    proof {
        assert(whole.take(end - start) =~= whole);
    }
    Some(acc)
}

/// A digit string whose prefix value already exceeds what one more digit can
/// keep inside `u64` denotes a value beyond `u64::MAX`.
proof fn lemma_dec_value_overflow(s: Seq<u8>, k: int, d: nat)
    requires
        0 <= k < s.len(),
        d == s[k] - 48,
        dec_value(s.take(k)) * 10 + d > u64::MAX,
        48 <= s[k] <= 57,
    ensures
        !(all_digits(s) && dec_value(s) <= u64::MAX),
    decreases s.len() - k,
{
    if all_digits(s) {
        if k == s.len() - 1 {
            assert(s.take(s.len() as int) =~= s);
            assert(s.take(k + 1).drop_last() =~= s.take(k));
            assert(dec_value(s.take(k + 1)) == dec_value(s.take(k)) * 10 + d);
            assert(s.take(k + 1) =~= s);
        } else {
            assert(s.take(k + 1).drop_last() =~= s.take(k));
            let v1 = dec_value(s.take(k + 1));
            assert(v1 == dec_value(s.take(k)) * 10 + d);
            let d2 = (s[k + 1] - 48) as nat;
            assert(dec_value(s.take(k + 2)) == v1 * 10 + d2) by {
                assert(s.take(k + 2).drop_last() =~= s.take(k + 1));
            }
            assert(v1 * 10 + d2 > u64::MAX) by (nonlinear_arith)
                requires
                    v1 > u64::MAX,
                    d2 >= 0,
            ;
            lemma_dec_value_overflow(s, k + 1, d2);
        }
    }
}

/// Copies `s[start..end]` into a fresh vector.
pub fn copy_range(s: &[u8], start: usize, end: usize) -> (r: Vec<u8>)
    requires
        start <= end <= s@.len(),
    ensures
        r@ == s@.subrange(start as int, end as int),
{
    let mut out: Vec<u8> = Vec::new();
    let mut i: usize = start;
    while i < end
        invariant
            start <= i <= end <= s@.len(),
            out@ == s@.subrange(start as int, i as int),
        decreases end - i,
    {
        out.push(s[i]);
        proof {
            assert(s@.subrange(start as int, i + 1) =~= s@.subrange(start as int, i as int).push(
                s@[i as int],
            ));
        }
        i = i + 1;
    }
    out
}

} // verus!
