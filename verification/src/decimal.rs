//! Decimal text for integers, as bencode writes and reads it.
use vstd::prelude::*;

verus! {

/// ASCII code of the digit `d` (`d < 10`).
pub open spec fn digit_char(d: nat) -> u8 {
    (48 + d) as u8
}

pub open spec fn is_digit(b: u8) -> bool {
    48 <= b <= 57
}

/// Shortest decimal text of a natural number (no sign, no leading zero).
pub open spec fn nat_digits(n: nat) -> Seq<u8>
    decreases n,
{
    if n < 10 {
        seq![digit_char(n)]
    } else {
        nat_digits(n / 10).push(digit_char(n % 10))
    }
}

/// Decimal text of an integer: a minus sign before the digits of a negative one.
pub open spec fn int_digits(n: int) -> Seq<u8> {
    if n < 0 {
        seq![45u8] + nat_digits((-n) as nat)
    } else {
        nat_digits(n as nat)
    }
}

pub open spec fn all_digits(s: Seq<u8>) -> bool {
    forall|i: int| 0 <= i < s.len() ==> is_digit(#[trigger] s[i])
}

/// Value of a run of decimal digits (0 for the empty run).
pub open spec fn digits_value(s: Seq<u8>) -> nat
    decreases s.len(),
{
    if s.len() == 0 {
        0
    } else {
        digits_value(s.drop_last()) * 10 + (s.last() - 48) as nat
    }
}

/// A text that starts with the digit zero and has more than one byte.
pub open spec fn has_leading_zero(s: Seq<u8>) -> bool {
    s.len() > 1 && s[0] == 48u8
}

/// What `i64::from_str` accepts: an optional `+` or `-`, then at least one
/// digit, with a value in the range of `i64`.
pub open spec fn parse_i64_text(s: Seq<u8>) -> Option<int> {
    if s.len() == 0 {
        None
    } else if (s[0] == 43u8 || s[0] == 45u8) && s.len() == 1 {
        None
    } else {
        let neg = s[0] == 45u8;
        let d = if s[0] == 43u8 || s[0] == 45u8 { s.drop_first() } else { s };
        let v: int = if neg { -(digits_value(d) as int) } else { digits_value(d) as int };
        if all_digits(d) && i64::MIN <= v <= i64::MAX {
            Some(v)
        } else {
            None
        }
    }
}

/// What `usize::from_str` accepts: an optional `+`, then at least one digit,
/// with a value that fits in `usize`.
pub open spec fn parse_usize_text(s: Seq<u8>) -> Option<nat> {
    if s.len() == 0 {
        None
    } else if (s[0] == 43u8 || s[0] == 45u8) && s.len() == 1 {
        None
    } else {
        let d = if s[0] == 43u8 { s.drop_first() } else { s };
        if all_digits(d) && digits_value(d) <= usize::MAX {
            Some(digits_value(d))
        } else {
            None
        }
    }
}

pub proof fn lemma_nat_digits_shape(n: nat)
    ensures
        nat_digits(n).len() >= 1,
        all_digits(nat_digits(n)),
        n >= 10 ==> nat_digits(n)[0] != 48u8,
        n < 10 ==> nat_digits(n).len() == 1,
        digits_value(nat_digits(n)) == n,
    decreases n,
{
    if n >= 10 {
        lemma_nat_digits_shape(n / 10);
        let s = nat_digits(n);
        assert(s.drop_last() =~= nat_digits(n / 10));
        assert(s.last() == digit_char(n % 10));
        assert((digit_char(n % 10) - 48) as nat == n % 10);
        assert((n / 10) * 10 + n % 10 == n) by (nonlinear_arith);
        assert(digits_value(s) == digits_value(s.drop_last()) * 10 + (s.last() - 48) as nat);
        if n / 10 < 10 {
            assert(nat_digits(n / 10)[0] == digit_char(n / 10));
        }
    } else {
        assert(nat_digits(n).drop_last() =~= Seq::<u8>::empty());
        assert((digit_char(n) - 48) as nat == n);
        assert(digits_value(Seq::<u8>::empty()) == 0);
    }
}

/// `digits_value` never shrinks as a run of digits grows.
pub proof fn lemma_digits_value_prefix(s: Seq<u8>, i: int, j: int)
    requires
        0 <= i <= j <= s.len(),
        all_digits(s),
    ensures
        digits_value(s.take(i)) <= digits_value(s.take(j)),
    decreases j - i,
{
    if i < j {
        lemma_digits_value_prefix(s, i, j - 1);
        assert(s.take(j).drop_last() =~= s.take(j - 1));
    }
}

/// Decimal digits of an unsigned number.
pub fn render_u64(n: u64) -> (r: Vec<u8>)
    ensures
        r@ == nat_digits(n as nat),
    decreases n,
{
    if n < 10 {
        let mut v = Vec::new();
        v.push((48 + n) as u8);
        v
    } else {
        let mut v = render_u64(n / 10);
        v.push((48 + n % 10) as u8);
        v
    }
}

/// Decimal text of a signed number: `-` and the digits of its magnitude when negative.
pub fn render_i64(n: i64) -> (r: Vec<u8>)
    ensures
        r@ == int_digits(n as int),
{
    if n < 0 {
        let m: u64 = (0i128 - n as i128) as u64;
        let digits = render_u64(m);
        let mut v = Vec::new();
        v.push(45u8);
        let mut i: usize = 0;
        while i < digits.len()
            invariant
                0 <= i <= digits.len(),
                v@ == seq![45u8] + digits@.take(i as int),
            decreases digits.len() - i,
        {
            v.push(digits[i]);
            i = i + 1;
            assert(digits@.take(i as int) =~= digits@.take(i - 1).push(digits@[i - 1]));
        }
        assert(digits@.take(digits.len() as int) =~= digits@);
        v
    } else {
        render_u64(n as u64)
    }
}

/// Reads a run of digits into a `u64`; `None` when the value does not fit.
fn digits_to_u64(s: &[u8], from: usize, to: usize) -> (r: Option<u64>)
    requires
        from <= to <= s.len(),
        all_digits(s@.subrange(from as int, to as int)),
    ensures
        match r {
            Some(v) => v as nat == digits_value(s@.subrange(from as int, to as int)),
            None => digits_value(s@.subrange(from as int, to as int)) > u64::MAX,
        },
{
    let ghost d = s@.subrange(from as int, to as int);
    let mut acc: u64 = 0;
    let mut i: usize = from;
    assert(d.take(0) =~= Seq::<u8>::empty());
    while i < to
        invariant
            from <= i <= to <= s.len(),
            d == s@.subrange(from as int, to as int),
            all_digits(d),
            acc as nat == digits_value(d.take(i - from)),
        decreases to - i,
    {
        assert(d.take(i - from + 1).drop_last() =~= d.take(i - from));
        assert(d[i - from] == s@[i as int]);
        let digit = (s[i] - 48) as u64;
        match acc.checked_mul(10) {
            Some(m) => match m.checked_add(digit) {
                Some(a) => {
                    acc = a;
                },
                None => {
                    proof {
                        lemma_digits_value_prefix(d, i - from + 1, d.len() as int);
                        assert(d.take(d.len() as int) =~= d);
                    }
                    return None;
                },
            },
            None => {
                proof {
                    lemma_digits_value_prefix(d, i - from + 1, d.len() as int);
                    assert(d.take(d.len() as int) =~= d);
                }
                return None;
            },
        }
        i = i + 1;
    }
    assert(d.take(d.len() as int) =~= d);
    Some(acc)
}

/// Whether every byte of `s[from..to]` is a decimal digit.
fn check_digits(s: &[u8], from: usize, to: usize) -> (r: bool)
    requires
        from <= to <= s.len(),
    ensures
        r == all_digits(s@.subrange(from as int, to as int)),
{
    let mut i = from;
    while i < to
        invariant
            from <= i <= to <= s.len(),
            forall|k: int| from <= k < i ==> is_digit(#[trigger] s@[k]),
        decreases to - i,
    {
        if s[i] < 48 || s[i] > 57 {
            assert(!is_digit(s@.subrange(from as int, to as int)[i - from]));
            return false;
        }
        i = i + 1;
    }
    assert forall|k: int| 0 <= k < to - from implies is_digit(
        #[trigger] s@.subrange(from as int, to as int)[k],
    ) by {
        assert(s@.subrange(from as int, to as int)[k] == s@[from + k]);
    }
    true
}

/// Parses `s[from..to]` as `i64::from_str` does.
pub fn parse_i64(s: &[u8], from: usize, to: usize) -> (r: Option<i64>)
    requires
        from <= to <= s.len(),
    ensures
        match r {
            Some(v) => parse_i64_text(s@.subrange(from as int, to as int)) == Some(v as int),
            None => parse_i64_text(s@.subrange(from as int, to as int)) is None,
        },
{
    let ghost t = s@.subrange(from as int, to as int);
    if from == to {
        return None;
    }
    let first = s[from];
    if (first == 43 || first == 45) && to - from == 1 {
        return None;
    }
    let neg = first == 45;
    let start = if first == 43 || first == 45 { from + 1 } else { from };
    assert(s@.subrange(start as int, to as int) =~= if first == 43 || first == 45 {
        t.drop_first()
    } else {
        t
    });
    if !check_digits(s, start, to) {
        return None;
    }
    match digits_to_u64(s, start, to) {
        None => None,
        Some(m) => {
            if neg {
                if m <= 9223372036854775808u64 {
                    Some((0i128 - m as i128) as i64)
                } else {
                    None
                }
            } else {
                if m <= 9223372036854775807u64 {
                    Some(m as i64)
                } else {
                    None
                }
            }
        },
    }
}

/// Parses `s[from..to]` as `usize::from_str` does.
pub fn parse_usize(s: &[u8], from: usize, to: usize) -> (r: Option<usize>)
    requires
        from <= to <= s.len(),
    ensures
        match r {
            Some(v) => parse_usize_text(s@.subrange(from as int, to as int)) == Some(v as nat),
            None => parse_usize_text(s@.subrange(from as int, to as int)) is None,
        },
{
    let ghost t = s@.subrange(from as int, to as int);
    if from == to {
        return None;
    }
    let first = s[from];
    if (first == 43 || first == 45) && to - from == 1 {
        return None;
    }
    let start = if first == 43 { from + 1 } else { from };
    assert(s@.subrange(start as int, to as int) =~= if first == 43 {
        t.drop_first()
    } else {
        t
    });
    if !check_digits(s, start, to) {
        return None;
    }
    match digits_to_u64(s, start, to) {
        None => None,
        Some(m) => {
            if m as u128 <= usize::MAX as u128 {
                Some(m as usize)
            } else {
                None
            }
        },
    }
}

} // verus!
