//! Decimal text of integers, as it stands in a record: ASCII digits, most
//! significant first, no leading zero, a minus sign before a negative number.
//!
//! Writing is described by [`decimal`] and [`signed_decimal`], reading by
//! [`read_unsigned`] and [`read_signed`]. The lemmas show that each reader
//! takes back exactly what the matching writer gave, and nothing else.

use vstd::prelude::*;

verus! {

/// The byte `-`.
pub const MINUS: u8 = 45;

/// The byte `0`; the other digits follow it.
pub const ZERO: u8 = 48;

/// Whether `b` is one of the bytes `0` to `9`.
pub open spec fn is_digit(b: u8) -> bool {
    48 <= b <= 57
}

/// Whether `s` is empty or begins with a byte that is no digit. A number can
/// be read back only when such text follows it.
pub open spec fn ends_number(s: Seq<u8>) -> bool {
    s.len() == 0 || !is_digit(s[0])
}

/// Whether every byte of `s` is a digit.
pub open spec fn all_digits(s: Seq<u8>) -> bool {
    forall|i: int| 0 <= i < s.len() ==> is_digit(#[trigger] s[i])
}

/// The decimal digits of `n`.
pub open spec fn decimal(n: nat) -> Seq<u8>
    decreases n,
{
    if n < 10 {
        seq![(48 + n) as u8]
    } else {
        decimal(n / 10).push((48 + n % 10) as u8)
    }
}

/// The decimal text of `n`, with a minus sign if it is negative.
pub open spec fn signed_decimal(n: int) -> Seq<u8> {
    if n < 0 {
        seq![45u8] + decimal((-n) as nat)
    } else {
        decimal(n as nat)
    }
}

/// The number that a sequence of digits denotes.
pub open spec fn value(digits: Seq<u8>) -> nat
    decreases digits.len(),
{
    if digits.len() == 0 {
        0
    } else {
        10 * value(digits.drop_last()) + (digits.last() - 48) as nat
    }
}

/// How many digits stand at the head of `s`.
pub open spec fn run_len(s: Seq<u8>) -> nat
    decreases s.len(),
{
    if s.len() > 0 && is_digit(s[0]) {
        1 + run_len(s.skip(1))
    } else {
        0
    }
}

/// Whether `digits` is written the way [`decimal`] writes: at least one digit,
/// and no zero in front of another digit.
pub open spec fn canonical(digits: Seq<u8>) -> bool {
    digits.len() >= 1 && (digits.len() == 1 || digits[0] != 48)
}

/// Reads the unsigned number at the head of `s`: all the digits that stand
/// there, if they are canonical. Gives the number and the text after it.
pub open spec fn read_unsigned(s: Seq<u8>) -> Option<(nat, Seq<u8>)> {
    let run = s.take(run_len(s) as int);
    if canonical(run) {
        Some((value(run), s.skip(run_len(s) as int)))
    } else {
        None
    }
}

/// Reads the signed number at the head of `s`: an unsigned number, or a minus
/// sign and an unsigned number other than zero.
pub open spec fn read_signed(s: Seq<u8>) -> Option<(int, Seq<u8>)> {
    if s.len() > 0 && s[0] == 45 {
        match read_unsigned(s.skip(1)) {
            Some((magnitude, rest)) => if magnitude > 0 {
                Some((-(magnitude as int), rest))
            } else {
                None
            },
            None => None,
        }
    } else {
        match read_unsigned(s) {
            Some((magnitude, rest)) => Some((magnitude as int, rest)),
            None => None,
        }
    }
}

/// The digits at the head of `s` are digits, they fit in `s`, and what follows
/// them is none.
pub proof fn lemma_run_len(s: Seq<u8>)
    ensures
        run_len(s) <= s.len(),
        all_digits(s.take(run_len(s) as int)),
        ends_number(s.skip(run_len(s) as int)),
    decreases s.len(),
{
    if s.len() > 0 && is_digit(s[0]) {
        let t = s.skip(1);
        lemma_run_len(t);
        let k = run_len(t) as int;
        assert(s.skip(k + 1) =~= t.skip(k));
        assert forall|i: int| 0 <= i < k + 1 implies is_digit(#[trigger] s.take(k + 1)[i]) by {
            if i > 0 {
                assert(s.take(k + 1)[i] == t.take(k)[i - 1]);
            }
        }
    } else {
        assert(s.skip(0) =~= s);
    }
}

/// If `s` begins with `k` digits and what follows them is none, the digits at
/// its head are those `k`.
pub proof fn lemma_run_len_is(s: Seq<u8>, k: int)
    requires
        0 <= k <= s.len(),
        all_digits(s.take(k)),
        ends_number(s.skip(k)),
    ensures
        run_len(s) == k,
    decreases k,
{
    if k == 0 {
        assert(s.skip(0) =~= s);
    } else {
        assert(s[0] == s.take(k)[0]);
        let t = s.skip(1);
        assert(t.skip(k - 1) =~= s.skip(k));
        assert forall|i: int| 0 <= i < k - 1 implies is_digit(#[trigger] t.take(k - 1)[i]) by {
            assert(t.take(k - 1)[i] == s.take(k)[i + 1]);
        }
        lemma_run_len_is(t, k - 1);
    }
}

/// What [`decimal`] writes: digits only, in canonical form, denoting `n`.
pub proof fn lemma_decimal(n: nat)
    ensures
        decimal(n).len() >= 1,
        all_digits(decimal(n)),
        canonical(decimal(n)),
        value(decimal(n)) == n,
        n > 0 ==> decimal(n)[0] != 48,
    decreases n,
{
    if n < 10 {
        let s = decimal(n);
        assert(s.drop_last() =~= Seq::<u8>::empty());
        assert(value(s.drop_last()) == 0);
    } else {
        let p = decimal(n / 10);
        lemma_decimal(n / 10);
        let s = decimal(n);
        assert(s == p.push((48 + n % 10) as u8));
        assert(s.drop_last() =~= p);
        assert(s[0] == p[0]);
    }
}

/// Canonical digits are what [`decimal`] writes for the number they denote.
pub proof fn lemma_decimal_of_value(digits: Seq<u8>)
    requires
        all_digits(digits),
        canonical(digits),
    ensures
        decimal(value(digits)) == digits,
    decreases digits.len(),
{
    let init = digits.drop_last();
    let last = digits.last();
    assert(is_digit(last));
    if digits.len() == 1 {
        assert(init =~= Seq::<u8>::empty());
        assert(value(init) == 0);
        assert(decimal(value(digits)) =~= digits);
    } else {
        assert(init[0] == digits[0]);
        assert forall|i: int| 0 <= i < init.len() implies is_digit(#[trigger] init[i]) by {
            assert(init[i] == digits[i]);
        }
        lemma_decimal_of_value(init);
        lemma_value_positive(init);
        let v = value(digits);
        assert(v == 10 * value(init) + (last - 48));
        assert(v >= 10);
        assert(v / 10 == value(init));
        assert(v % 10 == last - 48);
        assert(decimal(v) =~= digits);
    }
}

/// Digits that do not begin with a zero denote a number that is not zero.
pub proof fn lemma_value_positive(digits: Seq<u8>)
    requires
        all_digits(digits),
        digits.len() >= 1,
        digits[0] != 48,
    ensures
        value(digits) >= 1,
    decreases digits.len(),
{
    let init = digits.drop_last();
    if digits.len() == 1 {
        assert(is_digit(digits[0]));
        assert(digits.last() == digits[0]);
    } else {
        assert(init[0] == digits[0]);
        assert forall|i: int| 0 <= i < init.len() implies is_digit(#[trigger] init[i]) by {
            assert(init[i] == digits[i]);
        }
        lemma_value_positive(init);
    }
}

/// The number that digits denote does not shrink when more digits follow.
pub proof fn lemma_value_grows(digits: Seq<u8>, k: int)
    requires
        all_digits(digits),
        0 <= k <= digits.len(),
    ensures
        value(digits.take(k)) <= value(digits),
    decreases digits.len() - k,
{
    if k == digits.len() {
        assert(digits.take(k) =~= digits);
    } else {
        let longer = digits.take(k + 1);
        assert(longer.drop_last() =~= digits.take(k));
        assert(is_digit(digits[k]));
        assert(longer.last() == digits[k]);
        lemma_value_grows(digits, k + 1);
    }
}

/// Reading takes back the number that [`decimal`] wrote, and leaves the text
/// that followed it.
pub proof fn lemma_read_unsigned_of_decimal(n: nat, rest: Seq<u8>)
    requires
        ends_number(rest),
    ensures
        read_unsigned(decimal(n) + rest) == Some((n, rest)),
{
    let d = decimal(n);
    let s = d + rest;
    lemma_decimal(n);
    assert(s.take(d.len() as int) =~= d);
    assert(s.skip(d.len() as int) =~= rest);
    lemma_run_len_is(s, d.len() as int);
}

/// What was read as an unsigned number is the text that [`decimal`] writes for
/// it, and the text after it begins with no digit.
pub proof fn lemma_read_unsigned_sound(s: Seq<u8>)
    requires
        read_unsigned(s) is Some,
    ensures
        s == decimal(read_unsigned(s).unwrap().0) + read_unsigned(s).unwrap().1,
        ends_number(read_unsigned(s).unwrap().1),
{
    lemma_run_len(s);
    let k = run_len(s) as int;
    lemma_decimal_of_value(s.take(k));
    assert(s =~= s.take(k) + s.skip(k));
}

/// Reading takes back the number that [`signed_decimal`] wrote, and leaves the
/// text that followed it.
pub proof fn lemma_read_signed_of_decimal(n: int, rest: Seq<u8>)
    requires
        ends_number(rest),
    ensures
        read_signed(signed_decimal(n) + rest) == Some((n, rest)),
{
    let s = signed_decimal(n) + rest;
    if n < 0 {
        let d = decimal((-n) as nat);
        assert(s[0] == 45);
        assert(s.skip(1) =~= d + rest);
        lemma_read_unsigned_of_decimal((-n) as nat, rest);
    } else {
        let d = decimal(n as nat);
        lemma_decimal(n as nat);
        assert(is_digit(d[0]));
        assert(s[0] == d[0]);
        lemma_read_unsigned_of_decimal(n as nat, rest);
    }
}

/// What was read as a signed number is the text that [`signed_decimal`] writes
/// for it, and the text after it begins with no digit.
pub proof fn lemma_read_signed_sound(s: Seq<u8>)
    requires
        read_signed(s) is Some,
    ensures
        s == signed_decimal(read_signed(s).unwrap().0) + read_signed(s).unwrap().1,
        ends_number(read_signed(s).unwrap().1),
{
    if s.len() > 0 && s[0] == 45 {
        let t = s.skip(1);
        lemma_read_unsigned_sound(t);
        let (magnitude, rest) = read_unsigned(t).unwrap();
        assert(s =~= seq![45u8] + t);
        assert(s =~= seq![45u8] + decimal(magnitude) + rest);
    } else {
        lemma_read_unsigned_sound(s);
    }
}

/// Appends the decimal digits of `n` to `out`.
pub fn push_decimal(out: &mut Vec<u8>, n: u64)
    ensures
        final(out)@ == old(out)@ + decimal(n as nat),
    decreases n,
{
    if n >= 10 {
        push_decimal(out, n / 10);
    }
    let digit: u8 = (n % 10) as u8;
    out.push(ZERO + digit);
    proof {
        assert(out@ =~= old(out)@ + decimal(n as nat));
    }
}

/// Appends the decimal text of `n` to `out`, with a minus sign if it is
/// negative.
pub fn push_signed(out: &mut Vec<u8>, n: i64)
    ensures
        final(out)@ == old(out)@ + signed_decimal(n as int),
{
    if n < 0 {
        out.push(MINUS);
        let magnitude: u64 = if n == i64::MIN {
            0x8000_0000_0000_0000u64
        } else {
            (-n) as u64
        };
        push_decimal(out, magnitude);
        proof {
            assert(out@ =~= old(out)@ + signed_decimal(n as int));
        }
    } else {
        push_decimal(out, n as u64);
    }
}

/// Reads the unsigned number that stands in `bytes` at `start`, if there is one
/// and it is at most `max`. Gives the number and the place after it. Past the
/// end of `bytes` there is no number.
pub fn scan_unsigned(bytes: &[u8], start: usize, max: u64) -> (r: Option<(u64, usize)>)
    ensures
        start > bytes.len() ==> r is None,
        start <= bytes.len() ==> match read_unsigned(bytes@.skip(start as int)) {
            Some((n, rest)) => if n <= max {
                r matches Some((found, end)) && found == n && start < end <= bytes.len()
                    && bytes@.skip(end as int) == rest
            } else {
                r is None
            },
            None => r is None,
        },
{
    if start > bytes.len() {
        return None;
    }
    let ghost s = bytes@.skip(start as int);
    let mut end: usize = start;
    let mut found: u64 = 0;
    while end < bytes.len() && ZERO <= bytes[end] && bytes[end] <= 57
        invariant
            start <= end <= bytes.len(),
            s == bytes@.skip(start as int),
            all_digits(s.take(end - start)),
            found == value(s.take(end - start)),
            found <= max,
        decreases bytes.len() - end,
    {
        let digit: u64 = (bytes[end] - ZERO) as u64;
        proof {
            let longer = s.take(end - start + 1);
            assert(longer.drop_last() =~= s.take(end - start));
            assert(longer.last() == bytes[end as int]);
            assert forall|i: int| 0 <= i < longer.len() implies is_digit(#[trigger] longer[i]) by {
                if i < end - start {
                    assert(longer[i] == s.take(end - start)[i]);
                }
            }
        }
        if digit > max || found > (max - digit) / 10 {
            proof {
                let longer = s.take(end - start + 1);
                assert(value(longer) > max);
                lemma_run_len(s);
                let k = run_len(s) as int;
                if k < end - start + 1 {
                    assert(is_digit(longer[k]));
                    assert(s.skip(k)[0] == longer[k]);
                }
                assert(s.take(k).take(end - start + 1) =~= longer);
                lemma_value_grows(s.take(k), end - start + 1);
            }
            return None;
        }
        found = found * 10 + digit;
        end = end + 1;
    }
    proof {
        if end < bytes.len() {
            assert(s.skip(end - start)[0] == bytes[end as int]);
        }
        lemma_run_len_is(s, end - start);
        assert(s.skip(end - start) =~= bytes@.skip(end as int));
        if end > start {
            assert(s.take(end - start)[0] == bytes[start as int]);
        }
    }
    if end == start || (end - start > 1 && bytes[start] == ZERO) {
        return None;
    }
    Some((found, end))
}

/// Reads the signed number that stands in `bytes` at `start`, if there is one
/// and it fits in an `i64`. Gives the number and the place after it. Past the
/// end of `bytes` there is no number.
pub fn scan_signed(bytes: &[u8], start: usize) -> (r: Option<(i64, usize)>)
    ensures
        start > bytes.len() ==> r is None,
        start <= bytes.len() ==> match read_signed(bytes@.skip(start as int)) {
            Some((n, rest)) => if i64::MIN <= n <= i64::MAX {
                r matches Some((found, end)) && found == n && start < end <= bytes.len()
                    && bytes@.skip(end as int) == rest
            } else {
                r is None
            },
            None => r is None,
        },
{
    if start > bytes.len() {
        return None;
    }
    let ghost s = bytes@.skip(start as int);
    if start < bytes.len() && bytes[start] == MINUS {
        proof {
            assert(s[0] == bytes[start as int]);
            assert(s.skip(1) =~= bytes@.skip(start + 1));
        }
        match scan_unsigned(bytes, start + 1, 0x8000_0000_0000_0000u64) {
            Some((magnitude, end)) => {
                if magnitude == 0 {
                    None
                } else if magnitude == 0x8000_0000_0000_0000u64 {
                    Some((i64::MIN, end))
                } else {
                    Some((-(magnitude as i64), end))
                }
            },
            None => None,
        }
    } else {
        proof {
            if start < bytes.len() {
                assert(s[0] == bytes[start as int]);
            }
        }
        match scan_unsigned(bytes, start, 0x7fff_ffff_ffff_ffffu64) {
            Some((magnitude, end)) => Some((magnitude as i64, end)),
            None => None,
        }
    }
}

} // verus!
