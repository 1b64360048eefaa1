//! Unsigned decimal numbers: reading them and writing them.
use crate::text;
use vstd::prelude::*;
use vstd::slice::slice_subrange;

verus! {

/// The number that the digits `s` stand for.
pub open spec fn value(s: Seq<char>) -> int
    decreases s.len(),
{
    if s.len() == 0 {
        0
    } else {
        value(s.drop_last()) * 10 + (s.last() as int - '0' as int)
    }
}

/// Whether `s` consists of digits.
pub open spec fn all_digits(s: Seq<char>) -> bool {
    forall|i: int| 0 <= i < s.len() ==> text::is_digit(#[trigger] s[i])
}

/// The digits of a number: the text without the `+` that may stand in front.
pub open spec fn unsigned_digits(s: Seq<char>) -> Seq<char> {
    if s.len() > 0 && s[0] == '+' {
        s.skip(1)
    } else {
        s
    }
}

/// The number that `s` writes: digits, at least one, with or without a `+` in
/// front. `None` for any other text and for a number above `max`.
pub open spec fn unsigned(s: Seq<char>, max: int) -> Option<int> {
    let d = unsigned_digits(s);
    if d.len() > 0 && all_digits(d) && value(d) <= max {
        Some(value(d))
    } else {
        None
    }
}

/// `n` in decimal digits, without leading zeros.
pub open spec fn decimal(n: int) -> Seq<char>
    decreases n,
{
    if n < 10 {
        seq![(48 + n) as char]
    } else {
        decimal(n / 10).push((48 + n % 10) as char)
    }
}

/// A stretch of digits stands for no more than the whole.
proof fn lemma_value_grows(s: Seq<char>, i: int)
    requires
        all_digits(s),
        0 <= i <= s.len(),
    ensures
        0 <= value(s.take(i)) <= value(s),
    decreases s.len(),
{
    if s.len() == 0 {
        assert(s.take(i) =~= s);
    } else {
        assert(all_digits(s.drop_last()));
        assert(text::is_digit(s.last()));
        if i < s.len() {
            lemma_value_grows(s.drop_last(), i);
            assert(s.drop_last().take(i) =~= s.take(i));
        } else {
            lemma_value_grows(s.drop_last(), s.drop_last().len() as int);
            assert(s.drop_last().take(s.drop_last().len() as int) =~= s.drop_last());
            assert(s.take(i) =~= s);
        }
    }
}

/// Reads an unsigned number of at most `max`.
pub fn parse_unsigned(s: &[char], max: u64) -> (r: Option<u64>)
    ensures
        match r {
            Some(v) => unsigned(s@, max as int) == Some(v as int),
            None => unsigned(s@, max as int) is None,
        },
{
    let from: usize = if s.len() > 0 && s[0] == '+' {
        1
    } else {
        0
    };
    let d = slice_subrange(s, from, s.len());
    assert(d@ =~= unsigned_digits(s@));
    if d.len() == 0 {
        return None;
    }
    let mut i: usize = 0;
    while i < d.len()
        invariant
            i <= d@.len(),
            d@ == unsigned_digits(s@),
            forall|j: int| 0 <= j < i ==> text::is_digit(#[trigger] d@[j]),
        decreases d@.len() - i,
    {
        if !('0' <= d[i] && d[i] <= '9') {
            assert(!text::is_digit(d@[i as int]));
            return None;
        }
        i += 1;
    }
    let mut acc: u64 = 0;
    i = 0;
    while i < d.len()
        invariant
            i <= d@.len(),
            d@ == unsigned_digits(s@),
            all_digits(d@),
            acc == value(d@.take(i as int)),
            acc <= max,
        decreases d@.len() - i,
    {
        assert(text::is_digit(d@[i as int]));
        let digit: u64 = (d[i] as u32 - 48) as u64;
        proof {
            assert(d@.take(i + 1).drop_last() =~= d@.take(i as int));
            lemma_value_grows(d@, i + 1);
        }
        if digit > max || acc > (max - digit) / 10 {
            assert(acc * 10 + digit > max);
            return None;
        }
        acc = acc * 10 + digit;
        i += 1;
    }
    assert(d@.take(i as int) =~= d@);
    Some(acc)
}

/// Reads an unsigned 64-bit number.
pub fn parse_u64(s: &[char]) -> (r: Option<u64>)
    ensures
        match r {
            Some(v) => unsigned(s@, u64::MAX as int) == Some(v as int),
            None => unsigned(s@, u64::MAX as int) is None,
        },
{
    parse_unsigned(s, u64::MAX)
}

/// Reads an unsigned 32-bit number.
pub fn parse_u32(s: &[char]) -> (r: Option<u32>)
    ensures
        match r {
            Some(v) => unsigned(s@, u32::MAX as int) == Some(v as int),
            None => unsigned(s@, u32::MAX as int) is None,
        },
{
    match parse_unsigned(s, u32::MAX as u64) {
        Some(v) => Some(v as u32),
        None => None,
    }
}

/// Appends `n` in decimal.
pub fn push_decimal(out: &mut String, n: u64)
    ensures
        final(out)@ == old(out)@ + decimal(n as int),
    decreases n,
{
    let ghost start = out@;
    if n >= 10 {
        push_decimal(out, n / 10);
        assert(start + decimal(n as int) =~= (start + decimal((n / 10) as int)).push(
            (48 + n % 10) as char,
        ));
    } else {
        assert(start + decimal(n as int) =~= start.push((48 + n % 10) as char));
    }
    out.push((48u8 + (n % 10) as u8) as char);
}

/// `n` in decimal.
pub fn show_decimal(n: u64) -> (r: String)
    ensures
        r@ == decimal(n as int),
{
    let mut out = String::new();
    push_decimal(&mut out, n);
    assert(Seq::<char>::empty() + decimal(n as int) =~= decimal(n as int));
    out
}

/// The digits of a number stand for that number.
pub proof fn lemma_decimal(n: int)
    requires
        0 <= n,
    ensures
        decimal(n).len() > 0,
        all_digits(decimal(n)),
        value(decimal(n)) == n,
    decreases n,
{
    if n < 10 {
        let d = decimal(n);
        assert(d.drop_last() =~= Seq::empty());
        assert(value(d.drop_last()) == 0);
    } else {
        lemma_decimal(n / 10);
        let d = decimal(n);
        assert(d.drop_last() =~= decimal(n / 10));
        assert forall|i: int| 0 <= i < d.len() implies text::is_digit(#[trigger] d[i]) by {
            if i < d.len() - 1 {
                assert(d[i] == decimal(n / 10)[i]);
            }
        }
    }
}

/// A number that was written is read back.
pub proof fn law_decimal_reads_back(n: int, max: int)
    requires
        0 <= n <= max,
    ensures
        unsigned(decimal(n), max) == Some(n),
{
    lemma_decimal(n);
    assert(text::is_digit(decimal(n)[0]));
}

/// A text is read as a number where it consists of digits, one at least, with
/// or without a plus sign in front, and the number is not above the limit.
/// Nothing else is.
pub proof fn law_only_digits_are_a_number(s: Seq<char>, max: int)
    ensures
        s.len() == 0 ==> unsigned(s, max) is None,
        s == seq!['+'] ==> unsigned(s, max) is None,
        s.len() > 0 && s[0] != '+' ==> (unsigned(s, max) is Some ==> forall|i: int|
            0 <= i < s.len() ==> '0' <= #[trigger] s[i] <= '9'),
        s.len() > 0 && s[0] != '+' ==> unsigned(seq!['+'] + s, max) == unsigned(s, max),
        unsigned(s, max) matches Some(n) ==> 0 <= n <= max,
{
    assert((seq!['+'] + s).skip(1) =~= s);
    if unsigned(s, max) is Some {
        lemma_value_grows(unsigned_digits(s), 0);
        assert(unsigned_digits(s).take(0) =~= Seq::empty());
    }
}

/// One more digit makes a number ten times as large, and adds the digit; past
/// the limit there is no number.
pub proof fn law_digits_count_by_tens(s: Seq<char>, n: int, d: int, max: int)
    requires
        unsigned(s, max) == Some(n),
        0 <= d <= 9,
    ensures
        10 * n + d <= max ==> unsigned(s.push((48 + d) as char), max) == Some(10 * n + d),
        10 * n + d > max ==> unsigned(s.push((48 + d) as char), max) is None,
{
    let c = (48 + d) as char;
    let t = unsigned_digits(s);
    assert(unsigned_digits(s.push(c)) =~= t.push(c));
    assert(t.push(c).drop_last() =~= t);
    assert forall|i: int| 0 <= i < t.push(c).len() implies text::is_digit(
        #[trigger] t.push(c)[i],
    ) by {
        if i < t.len() {
            assert(t.push(c)[i] == t[i]);
        }
    }
}

/// A single digit is read as itself.
pub proof fn law_one_digit_is_itself(d: int, max: int)
    requires
        0 <= d <= 9,
    ensures
        d <= max ==> unsigned(seq![(48 + d) as char], max) == Some(d),
        d > max ==> unsigned(seq![(48 + d) as char], max) is None,
{
    let s = seq![(48 + d) as char];
    assert(s.drop_last() =~= Seq::empty());
    assert(value(s.drop_last()) == 0);
    assert(value(s) == d);
}

/// A number is written in digits alone, and without a zero in front; zero is
/// one digit.
pub proof fn law_decimal_has_no_leading_zero(n: int)
    requires
        0 <= n,
    ensures
        decimal(n).len() > 0,
        forall|i: int| 0 <= i < decimal(n).len() ==> '0' <= #[trigger] decimal(n)[i] <= '9',
        n > 0 ==> decimal(n)[0] != '0',
        n < 10 ==> decimal(n).len() == 1,
        value(decimal(n)) == n,
    decreases n,
{
    lemma_decimal(n);
    assert forall|i: int| 0 <= i < decimal(n).len() implies '0' <= #[trigger] decimal(n)[i] <= '9' by {
        assert(text::is_digit(decimal(n)[i]));
    }
    if n >= 10 {
        law_decimal_has_no_leading_zero(n / 10);
        assert(decimal(n)[0] == decimal(n / 10)[0]);
    }
}

} // verus!
