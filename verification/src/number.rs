//! Decimal numbers as text: reading them and writing them.
use vstd::prelude::*;

verus! {

/// Whether `c` is an ASCII digit.
pub open spec fn is_digit(c: char) -> bool {
    '0' <= c <= '9'
}

/// The character of the digit `d`.
pub open spec fn digit_char(d: int) -> char
    recommends
        0 <= d < 10,
{
    ('0' as int + d) as char
}

/// Whether `s` holds nothing but ASCII digits.
pub open spec fn all_digits(s: Seq<char>) -> bool {
    forall|i: int| 0 <= i < s.len() ==> is_digit(#[trigger] s[i])
}

/// The number that the digits `s` write in base ten.
pub open spec fn digits_value(s: Seq<char>) -> int
    decreases s.len(),
{
    if s.len() == 0 {
        0
    } else {
        10 * digits_value(s.drop_last()) + (s.last() as int - '0' as int)
    }
}

/// The number that `s` writes: one or more digits whose value is at most `limit`.
pub open spec fn parsed_digits(s: Seq<char>, limit: int) -> Option<int> {
    if s.len() > 0 && all_digits(s) && digits_value(s) <= limit {
        Some(digits_value(s))
    } else {
        None
    }
}

/// The `usize` that `s` writes: an optional plus sign, then digits.
pub open spec fn parsed_usize(s: Seq<char>) -> Option<int> {
    if s.len() > 0 && s[0] == '+' {
        parsed_digits(s.skip(1), usize::MAX as int)
    } else {
        parsed_digits(s, usize::MAX as int)
    }
}

/// The `i64` that `s` writes: an optional sign, then digits.
pub open spec fn parsed_i64(s: Seq<char>) -> Option<int> {
    if s.len() > 0 && s[0] == '-' {
        match parsed_digits(s.skip(1), -(i64::MIN as int)) {
            Some(v) => Some(-v),
            None => None,
        }
    } else if s.len() > 0 && s[0] == '+' {
        parsed_digits(s.skip(1), i64::MAX as int)
    } else {
        parsed_digits(s, i64::MAX as int)
    }
}

/// `n` in base ten, without leading zeros.
pub open spec fn decimal(n: nat) -> Seq<char>
    decreases n,
{
    if n < 10 {
        seq![digit_char(n as int)]
    } else {
        decimal(n / 10).push(digit_char((n % 10) as int))
    }
}

/// `n` in base ten, with a minus sign if it is negative.
pub open spec fn signed_decimal(n: int) -> Seq<char> {
    if n < 0 {
        seq!['-'] + decimal((-n) as nat)
    } else {
        decimal(n as nat)
    }
}

proof fn lemma_digits_value_grows(s: Seq<char>, k: int)
    requires
        0 <= k <= s.len(),
        all_digits(s),
    ensures
        0 <= digits_value(s.take(k)) <= digits_value(s),
    decreases s.len(),
{
    if k == s.len() {
        assert(s.take(k) =~= s);
        if s.len() > 0 {
            assert(all_digits(s.drop_last()));
            lemma_digits_value_grows(s.drop_last(), s.len() - 1);
            assert(is_digit(s[s.len() - 1]));
            assert(s.drop_last().take(s.len() - 1) =~= s.drop_last());
        }
    } else {
        assert(all_digits(s.drop_last()));
        lemma_digits_value_grows(s.drop_last(), k);
        assert(s.drop_last().take(k) =~= s.take(k));
        assert(is_digit(s[s.len() - 1]));
    }
}

/// Reads `chars[from..to]` as digits whose value is at most `limit`.
pub(crate) fn parse_digits(chars: &[char], from: usize, to: usize, limit: u64) -> (r: Option<u64>)
    requires
        from <= to <= chars@.len(),
    ensures
        r is Some <==> parsed_digits(chars@.subrange(from as int, to as int), limit as int) is Some,
        r matches Some(v) ==> parsed_digits(chars@.subrange(from as int, to as int), limit as int)
            == Some(v as int),
{
    if from == to {
        return None;
    }
    let ghost whole = chars@.subrange(from as int, to as int);
    let mut value: u64 = 0;
    let mut i: usize = from;
    while i < to
        invariant
            from <= i <= to <= chars@.len(),
            whole == chars@.subrange(from as int, to as int),
            all_digits(whole.take(i - from)),
            value == digits_value(whole.take(i - from)),
            value <= limit,
        decreases to - i,
    {
        let c = chars[i];
        assert(whole[i - from] == c);
        if !('0' <= c && c <= '9') {
            return None;
        }
        let digit: u128 = (c as u32 - '0' as u32) as u128;
        let next: u128 = value as u128 * 10 + digit;
        proof {
            let longer = whole.take(i + 1 - from);
            assert(longer.drop_last() =~= whole.take(i - from));
            assert(longer.last() == c);
            assert(next == digits_value(longer));
            assert forall|j: int| 0 <= j < longer.len() implies is_digit(#[trigger] longer[j]) by {
                if j < i - from {
                    assert(is_digit(whole.take(i - from)[j]));
                }
            }
            if all_digits(whole) {
                lemma_digits_value_grows(whole, i + 1 - from);
            }
        }
        if next > limit as u128 {
            return None;
        }
        value = next as u64;
        i += 1;
    }
    assert(whole.take(to - from) =~= whole);
    Some(value)
}

/// Reads `chars[from..to]` as a `usize`.
pub(crate) fn parse_usize(chars: &[char], from: usize, to: usize) -> (r: Option<usize>)
    requires
        from <= to <= chars@.len(),
    ensures
        r is Some <==> parsed_usize(chars@.subrange(from as int, to as int)) is Some,
        r matches Some(v) ==> parsed_usize(chars@.subrange(from as int, to as int)) == Some(
            v as int,
        ),
{
    let mut start: usize = from;
    if from < to && chars[from] == '+' {
        start = from + 1;
        assert(chars@.subrange(from as int, to as int).skip(1) =~= chars@.subrange(
            start as int,
            to as int,
        ));
    }
    match parse_digits(chars, start, to, usize::MAX as u64) {
        Some(v) => Some(v as usize),
        None => None,
    }
}

/// Reads `chars[from..to]` as an `i64`.
pub(crate) fn parse_i64(chars: &[char], from: usize, to: usize) -> (r: Option<i64>)
    requires
        from <= to <= chars@.len(),
    ensures
        r is Some <==> parsed_i64(chars@.subrange(from as int, to as int)) is Some,
        r matches Some(v) ==> parsed_i64(chars@.subrange(from as int, to as int)) == Some(v as int),
{
    let ghost whole = chars@.subrange(from as int, to as int);
    if from < to && chars[from] == '-' {
        assert(whole.skip(1) =~= chars@.subrange(from + 1, to as int));
        match parse_digits(chars, from + 1, to, 0x8000_0000_0000_0000) {
            Some(v) => if v == 0x8000_0000_0000_0000 {
                Some(i64::MIN)
            } else {
                Some(-(v as i64))
            },
            None => None,
        }
    } else {
        let mut start: usize = from;
        if from < to && chars[from] == '+' {
            start = from + 1;
            assert(whole.skip(1) =~= chars@.subrange(start as int, to as int));
        }
        match parse_digits(chars, start, to, 0x7fff_ffff_ffff_ffff) {
            Some(v) => Some(v as i64),
            None => None,
        }
    }
}

/// Appends `n` in base ten to `out`.
pub(crate) fn push_decimal(out: &mut String, n: u64)
    ensures
        final(out)@ == old(out)@ + decimal(n as nat),
    decreases n,
{
    if n >= 10 {
        push_decimal(out, n / 10);
    }
    let digit: u8 = (n % 10) as u8;
    let c = (48u8 + digit) as char;
    out.push(c);
    assert(out@ =~= old(out)@ + decimal(n as nat));
}

/// Appends `n` in base ten to `out`, with a minus sign if it is negative.
pub(crate) fn push_signed(out: &mut String, n: i64)
    ensures
        final(out)@ == old(out)@ + signed_decimal(n as int),
{
    if n < 0 {
        out.push('-');
        let magnitude: u64 = if n == i64::MIN {
            0x8000_0000_0000_0000
        } else {
            (-n) as u64
        };
        push_decimal(out, magnitude);
        assert(out@ =~= old(out)@ + signed_decimal(n as int));
    } else {
        push_decimal(out, n as u64);
    }
}

/// Reading back a number that was written in base ten gives the number.
pub proof fn decimal_reads_back(n: nat)
    ensures
        decimal(n).len() > 0,
        all_digits(decimal(n)),
        digits_value(decimal(n)) == n,
    decreases n,
{
    let s = decimal(n);
    if n < 10 {
        assert(digits_value(s.drop_last()) == 0);
        assert(is_digit(s[0]));
    } else {
        decimal_reads_back(n / 10);
        assert(s.drop_last() =~= decimal(n / 10));
        assert forall|i: int| 0 <= i < s.len() implies is_digit(#[trigger] s[i]) by {
            if i < s.len() - 1 {
                assert(is_digit(decimal(n / 10)[i]));
            }
        }
    }
}

/// Different numbers are written differently.
pub proof fn decimal_is_injective(m: nat, n: nat)
    requires
        decimal(m) == decimal(n),
    ensures
        m == n,
{
    decimal_reads_back(m);
    decimal_reads_back(n);
}

/// Reading a `usize` back from its digits gives the number.
pub proof fn usize_reads_back(n: usize)
    ensures
        parsed_usize(decimal(n as nat)) == Some(n as int),
{
    decimal_reads_back(n as nat);
    assert(is_digit(decimal(n as nat)[0]));
}

/// Reading an `i64` back from its digits and its sign gives the number.
pub proof fn i64_reads_back(n: i64)
    ensures
        parsed_i64(signed_decimal(n as int)) == Some(n as int),
{
    if n < 0 {
        let magnitude = (-n) as nat;
        decimal_reads_back(magnitude);
        assert(signed_decimal(n as int).skip(1) =~= decimal(magnitude));
    } else {
        decimal_reads_back(n as nat);
        assert(is_digit(decimal(n as nat)[0]));
    }
}

/// Digits are read in base ten: one more digit multiplies what came before it by ten, and adds
/// its distance from zero.
pub proof fn each_digit_counts(s: Seq<char>, c: char)
    ensures
        digits_value(s.push(c)) == 10 * digits_value(s) + (c as int - '0' as int),
        digits_value(Seq::empty()) == 0,
{
    assert(s.push(c).drop_last() =~= s);
}

/// One or more digits, with a plus sign before them or without, are read as the number they
/// write, as far as the type can hold it. With a minus sign they are no `usize`, and the opposite
/// `i64`.
pub proof fn digits_are_numbers(digits: Seq<char>)
    requires
        digits.len() > 0,
        forall|i: int| 0 <= i < digits.len() ==> '0' <= #[trigger] digits[i] <= '9',
    ensures
        ({
            let v = digits_value(digits);
            &&& parsed_usize(digits) == if v <= usize::MAX { Some(v) } else { None::<int> }
            &&& parsed_usize(seq!['+'] + digits) == parsed_usize(digits)
            &&& parsed_usize(seq!['-'] + digits) is None
            &&& parsed_i64(digits) == if v <= i64::MAX { Some(v) } else { None::<int> }
            &&& parsed_i64(seq!['+'] + digits) == parsed_i64(digits)
            &&& parsed_i64(seq!['-'] + digits) == if v <= i64::MAX + 1 {
                Some(-v)
            } else {
                None::<int>
            }
        }),
{
    assert('0' <= digits[0] <= '9');
    assert((seq!['+'] + digits).skip(1) =~= digits);
    assert((seq!['-'] + digits).skip(1) =~= digits);
    assert(!is_digit((seq!['-'] + digits)[0]));
    assert(all_digits(digits));
}

/// A text is no number if it has no digits, or holds anything but digits behind the place of its
/// sign, or something else than a digit or a sign in that place.
pub proof fn other_texts_are_no_numbers(s: Seq<char>, i: int)
    requires
        s.len() == 0 || (s.len() == 1 && !('0' <= s[0] <= '9')) || (0 <= i < s.len() && !('0' <= s[i]
            <= '9') && (i > 0 || (s[0] != '+' && s[0] != '-'))),
    ensures
        parsed_usize(s) is None,
        parsed_i64(s) is None,
{
    if s.len() > 1 {
        assert(!is_digit(s[i]));
        if i > 0 {
            assert(!is_digit(s.skip(1)[i - 1]));
        }
    } else if s.len() == 1 {
        assert(!is_digit(s[0]));
    }
}

/// A number is written digit by digit in base ten, and without leading zeros.
pub proof fn decimal_is_written_digit_by_digit(n: nat, d: nat)
    requires
        d < 10,
    ensures
        decimal(d).len() == 1,
        decimal(d)[0] as int == '0' as int + d,
        n > 0 ==> decimal(10 * n + d) == decimal(n) + decimal(d),
        n > 0 ==> decimal(n)[0] != '0',
    decreases n,
{
    if n > 0 {
        assert((10 * n + d) / 10 == n);
        assert((10 * n + d) % 10 == d);
        assert(decimal(10 * n + d) =~= decimal(n) + decimal(d));
        if n >= 10 {
            decimal_is_written_digit_by_digit(n / 10, 0);
            decimal_reads_back(n / 10);
        }
    }
}

/// A negative number is written as its opposite with a minus sign before it, and no other number
/// has a sign.
pub proof fn negative_numbers_have_a_minus_sign(n: nat)
    ensures
        signed_decimal(n as int) == decimal(n),
        n > 0 ==> signed_decimal(-n) == seq!['-'] + decimal(n),
{
}

} // verus!
