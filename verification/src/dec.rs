//! Decimal numerals on byte strings: the value of a digit string, the
//! canonical digit string of a number, and their round trip.

use vstd::prelude::*;

verus! {

/// Every byte is an ASCII digit.
pub open spec fn is_digits(s: Seq<u8>) -> bool {
    forall|i: int| 0 <= i < s.len() ==> 48 <= #[trigger] s[i] <= 57
}

/// The value of a digit string, most significant digit first.
pub open spec fn dec_value(s: Seq<u8>) -> int
    decreases s.len(),
{
    if s.len() == 0 {
        0
    } else {
        dec_value(s.drop_last()) * 10 + (s.last() - 48)
    }
}

/// The canonical digit string of a non-negative number: no sign, no
/// leading zeros.
pub open spec fn dec_of(n: int) -> Seq<u8>
    decreases n,
{
    if n < 10 {
        seq![(48 + if n >= 0 { n } else { 0 }) as u8]
    } else {
        dec_of(n / 10) + seq![(48 + n % 10) as u8]
    }
}

/// The canonical digit string is made of digits, starts with no
/// superfluous zero, and reads back as the number it was made from.
pub proof fn lemma_dec_roundtrip(n: int)
    requires
        n >= 0,
    ensures
        is_digits(dec_of(n)),
        dec_value(dec_of(n)) == n,
        dec_of(n).len() >= 1,
        dec_of(n)[0] != 48 || n < 10,
    decreases n,
{
    if n < 10 {
        let s = dec_of(n);
        assert(s.drop_last() =~= Seq::<u8>::empty());
        assert(dec_value(Seq::<u8>::empty()) == 0);
        assert(s.last() == (48 + n) as u8);
        assert(dec_value(s) == dec_value(s.drop_last()) * 10 + (s.last() - 48));
    } else {
        lemma_dec_roundtrip(n / 10);
        let s = dec_of(n);
        let p = dec_of(n / 10);
        assert(s.drop_last() =~= p);
        assert(s.last() == 48 + n % 10);
        assert(forall|i: int| 0 <= i < s.len() ==> 48 <= #[trigger] s[i] <= 57) by {
            assert(forall|i: int| 0 <= i < p.len() ==> s[i] == #[trigger] p[i]);
        }
        assert(s[0] == p[0]);
        assert(n / 10 >= 1);
        assert(dec_value(s) == dec_value(p) * 10 + (s.last() - 48));
        assert(dec_value(s) == (n / 10) * 10 + n % 10);
    }
}

/// A digit string's value only grows as digits are appended.
pub proof fn lemma_dec_value_prefix(s: Seq<u8>, k: int)
    requires
        0 <= k <= s.len(),
        is_digits(s),
    ensures
        dec_value(s.subrange(0, k)) <= dec_value(s),
        dec_value(s) >= 0,
    decreases s.len() - k,
{
    if k == s.len() {
        assert(s.subrange(0, k) =~= s);
        lemma_dec_value_nonneg(s);
    } else {
        lemma_dec_value_prefix(s, k + 1);
        let a = s.subrange(0, k);
        let b = s.subrange(0, k + 1);
        assert(b.drop_last() =~= a);
        lemma_dec_value_nonneg(a);
    }
}

/// A digit string's value is non-negative.
pub proof fn lemma_dec_value_nonneg(s: Seq<u8>)
    requires
        is_digits(s),
    ensures
        dec_value(s) >= 0,
    decreases s.len(),
{
    if s.len() > 0 {
        assert(is_digits(s.drop_last())) by {
            let t = s.drop_last();
            assert(forall|i: int| 0 <= i < t.len() ==> 48 <= #[trigger] t[i] <= 57);
        }
        lemma_dec_value_nonneg(s.drop_last());
    }
}

/// A digit string without a leading zero has a positive value.
pub proof fn lemma_dec_value_pos(s: Seq<u8>)
    requires
        is_digits(s),
        s.len() > 0,
        s[0] != 48,
    ensures
        dec_value(s) >= 1,
    decreases s.len(),
{
    if s.len() == 1 {
        assert(s.drop_last() =~= Seq::<u8>::empty());
        assert(dec_value(s.drop_last()) == 0);
    } else {
        let t = s.drop_last();
        assert(is_digits(t)) by {
            assert(forall|i: int| 0 <= i < t.len() ==> 48 <= #[trigger] t[i] <= 57);
        }
        assert(t[0] == s[0]);
        lemma_dec_value_pos(t);
    }
}

/// A canonical digit string (no sign, no leading zero) is the
/// canonical form of its value.
pub proof fn lemma_dec_canonical(s: Seq<u8>)
    requires
        is_digits(s),
        s.len() > 0,
        s[0] != 48 || s.len() == 1,
    ensures
        dec_of(dec_value(s)) == s,
    decreases s.len(),
{
    let n = dec_value(s);
    lemma_dec_value_nonneg(s);
    if s.len() == 1 {
        assert(s.drop_last() =~= Seq::<u8>::empty());
        assert(dec_value(s.drop_last()) == 0);
        assert(n == s[0] - 48);
        assert(dec_of(n) =~= s);
    } else {
        let t = s.drop_last();
        assert(is_digits(t)) by {
            assert(forall|i: int| 0 <= i < t.len() ==> 48 <= #[trigger] t[i] <= 57);
        }
        assert(t[0] == s[0] && s[0] != 48);
        lemma_dec_value_pos(t);
        assert(n == dec_value(t) * 10 + (s.last() - 48));
        assert(0 <= s.last() - 48 <= 9);
        assert(dec_value(t) >= 1);
        assert(n >= 10);
        assert(n / 10 == dec_value(t) && n % 10 == s.last() - 48) by {
            assert(n == dec_value(t) * 10 + (s.last() - 48));
        }
        lemma_dec_canonical(t);
        assert(dec_of(n) == dec_of(n / 10) + seq![(48 + n % 10) as u8]);
        assert(dec_of(n) =~= s);
    }
}

/// Parse a digit string as a `u64`.  `None` when the string is empty,
/// holds a non-digit, or its value does not fit.
pub fn parse_dec_u64(s: &[u8]) -> (r: Option<u64>)
    ensures
        match r {
            Some(v) => is_digits(s@) && s@.len() > 0 && dec_value(s@) == v as int,
            None => s@.len() == 0 || !is_digits(s@) || dec_value(s@) > u64::MAX,
        },
{
    if s.len() == 0 {
        return None;
    }
    let mut acc: u64 = 0;
    let mut k: usize = 0;
    while k < s.len()
        invariant
            k <= s@.len(),
            s@.len() > 0,
            is_digits(s@.subrange(0, k as int)),
            acc as int == dec_value(s@.subrange(0, k as int)),
        decreases s@.len() - k,
    {
        let b = s[k];
        if b < 48 || b > 57 {
            assert(!is_digits(s@)) by {
                assert(s@[k as int] == b);
            }
            return None;
        }
        let d = (b - 48) as u64;
        if acc > (u64::MAX - d) / 10 {
            proof {
                let pre = s@.subrange(0, k + 1);
                assert(pre.drop_last() =~= s@.subrange(0, k as int));
                assert(pre.last() == b);
                assert(dec_value(pre) == acc * 10 + d);
                assert(acc * 10 + d > u64::MAX) by {
                    assert(acc >= (u64::MAX - d) / 10 + 1);
                    assert(((u64::MAX - d) / 10 + 1) * 10 >= u64::MAX - d + 1)
                        by (nonlinear_arith);
                    assert(acc * 10 >= ((u64::MAX - d) / 10 + 1) * 10) by (nonlinear_arith)
                        requires
                            acc >= (u64::MAX - d) / 10 + 1,
                    ;
                }
                if is_digits(s@) {
                    assert(is_digits(pre)) by {
                        assert(forall|i: int|
                            0 <= i < pre.len() ==> 48 <= #[trigger] s@[i] <= 57);
                    }
                    lemma_dec_value_prefix(s@, k + 1);
                }
            }
            return None;
        }
        proof {
            assert(acc <= (u64::MAX - d) / 10 ==> acc * 10 <= u64::MAX - d) by (nonlinear_arith);
            let pre = s@.subrange(0, k + 1);
            assert(pre.drop_last() =~= s@.subrange(0, k as int));
            assert(pre.last() == b);
        }
        acc = acc * 10 + d;
        k += 1;
    }
    proof {
        assert(s@.subrange(0, s@.len() as int) =~= s@);
    }
    Some(acc)
}

/// The canonical digit string of a `u64`.
pub fn u64_to_dec(n: u64) -> (r: Vec<u8>)
    ensures
        r@ == dec_of(n as int),
    decreases n,
{
    if n < 10 {
        let mut v: Vec<u8> = Vec::new();
        v.push(48 + n as u8);
        assert(v@ =~= dec_of(n as int));
        v
    } else {
        let mut v = u64_to_dec(n / 10);
        v.push(48 + (n % 10) as u8);
        assert(v@ =~= dec_of(n as int));
        v
    }
}

} // verus!
