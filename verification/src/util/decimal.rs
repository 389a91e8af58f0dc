use vstd::prelude::*;

verus! {

pub open spec fn is_digit(b: u8) -> bool {
    48 <= b <= 57
}

/// The ASCII digits of `n` in base ten, most significant first, without
/// leading zeros (`0` is the single digit `0`).
pub open spec fn decimal(n: nat) -> Seq<u8>
    decreases n,
{
    if n < 10 {
        seq![(48 + n) as u8]
    } else {
        decimal(n / 10) + seq![(48 + n % 10) as u8]
    }
}

/// The number that a string of ASCII digits spells in base ten.
pub open spec fn digits_value(s: Seq<u8>) -> nat
    decreases s.len(),
{
    if s.len() == 0 {
        0
    } else {
        digits_value(s.drop_last()) * 10 + (s.last() - 48) as nat
    }
}

pub open spec fn all_digits(s: Seq<u8>) -> bool {
    forall|i: int| 0 <= i < s.len() ==> is_digit(#[trigger] s[i])
}

/// An unsigned integer written in base ten: an optional `+`, then at least
/// one ASCII digit; `None` for anything else and for values above
/// `usize::MAX`.
pub open spec fn parse_uint(s: Seq<u8>) -> Option<nat> {
    let digits = if s.len() > 0 && s[0] == 43 { s.drop_first() } else { s };
    if digits.len() > 0 && all_digits(digits) && digits_value(digits) <= usize::MAX {
        Some(digits_value(digits))
    } else {
        None
    }
}

/// The decimal text of a number is a non-empty run of digits whose value
/// is that number.
pub proof fn lemma_decimal_digits(n: nat)
    ensures
        decimal(n).len() > 0,
        all_digits(decimal(n)),
        digits_value(decimal(n)) == n,
    decreases n,
{
    if n >= 10 {
        lemma_decimal_digits(n / 10);
        let d = decimal(n);
        assert(d.drop_last() == decimal(n / 10));
        assert(d.last() == (48 + n % 10) as u8);
        assert(n == (n / 10) * 10 + n % 10);
        assert(digits_value(d) == digits_value(decimal(n / 10)) * 10 + (n % 10));
        assert forall|i: int| 0 <= i < d.len() implies is_digit(#[trigger] d[i]) by {
            if i < d.len() - 1 {
                assert(d[i] == decimal(n / 10)[i]);
            }
        }
    } else {
        let d = decimal(n);
        assert(d.drop_last() =~= Seq::<u8>::empty());
        assert(digits_value(d.drop_last()) == 0);
    }
}

/// Reading back what `decimal` writes gives the number again.
pub proof fn lemma_parse_decimal(n: nat)
    requires
        n <= usize::MAX,
    ensures
        parse_uint(decimal(n)) == Some(n),
{
    lemma_decimal_digits(n);
    assert(decimal(n)[0] != 43);
}

proof fn lemma_digits_value_prefix_grows(s: Seq<u8>, k: int)
    requires
        0 <= k <= s.len(),
        all_digits(s),
    ensures
        digits_value(s.take(k)) <= digits_value(s),
    decreases s.len() - k,
{
    if k < s.len() {
        lemma_digits_value_prefix_grows(s, k + 1);
        assert(s.take(k + 1).drop_last() == s.take(k));
        assert(is_digit(s[k]));
    } else {
        assert(s.take(k) == s);
    }
}

/// Appends the base-ten digits of `n` to `out`.
pub fn push_decimal(out: &mut Vec<u8>, n: usize)
    ensures
        final(out)@ == old(out)@ + decimal(n as nat),
    decreases n,
{
    if n >= 10 {
        push_decimal(out, n / 10);
    }
    let digit: u8 = (n % 10) as u8;
    out.push(48 + digit);
    proof {
        if n >= 10 {
            assert(old(out)@ + decimal((n / 10) as nat) + seq![(48 + n % 10) as u8] == old(out)@ + decimal(n as nat));
        } else {
            assert(seq![(48 + n) as u8] == decimal(n as nat));
        }
    }
}

/// Reads `bytes[start..end]` as an unsigned integer in base ten.
pub fn parse_uint_range(bytes: &[u8], start: usize, end: usize) -> (r: Option<usize>)
    requires
        start <= end <= bytes@.len(),
    ensures
        match parse_uint(bytes@.subrange(start as int, end as int)) {
            Some(v) => r == Some(v as usize),
            None => r is None,
        },
{
    let ghost s = bytes@.subrange(start as int, end as int);
    let mut i = start;
    if i < end && bytes[i] == 43 {
        i = i + 1;
    }
    let ghost digits = if s.len() > 0 && s[0] == 43 { s.drop_first() } else { s };
    assert(digits == bytes@.subrange(i as int, end as int));
    if i == end {
        return None;
    }
    let first = i;
    let mut value: usize = 0;
    while i < end
        invariant
            first <= i <= end <= bytes@.len(),
            s == bytes@.subrange(start as int, end as int),
            digits == (if s.len() > 0 && s[0] == 43 { s.drop_first() } else { s }),
            digits == bytes@.subrange(first as int, end as int),
            all_digits(digits.take(i - first)),
            value as nat == digits_value(digits.take(i - first)),
        decreases end - i,
    {
        let b = bytes[i];
        let ghost k = i - first;
        assert(digits[k] == b);
        if b < 48 || b > 57 {
            assert(!all_digits(digits));
            return None;
        }
        let d: usize = (b - 48) as usize;
        assert(digits.take(k + 1).drop_last() == digits.take(k));
        assert(digits.take(k + 1).last() == b);
        if value > (usize::MAX - d) / 10 {
            proof {
                assert(digits_value(digits.take(k + 1)) == value * 10 + d);
                assert(value * 10 + d > usize::MAX) by (nonlinear_arith)
                    requires
                        value > (usize::MAX - d) / 10,
                        d <= 9,
                ;
                if all_digits(digits) {
                    lemma_digits_value_prefix_grows(digits, k + 1);
                }
            }
            return None;
        }
        assert(value * 10 + d <= usize::MAX) by (nonlinear_arith)
            requires
                value <= (usize::MAX - d) / 10,
                d <= 9,
        ;
        value = value * 10 + d;
        i = i + 1;
        proof {
            assert forall|j: int| 0 <= j < digits.take(i - first).len() implies is_digit(
                #[trigger] digits.take(i - first)[j],
            ) by {
                if j < k {
                    assert(digits.take(i - first)[j] == digits.take(k)[j]);
                }
            }
        }
    }
    assert(digits.take(i - first) == digits);
    Some(value)
}

} // verus!
