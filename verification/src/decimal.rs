//! Decimal numbers as text.

use crate::text::to_chars;
use vstd::prelude::*;

verus! {

/// The digit a number below ten is written with.
pub open spec fn digit_char(n: int) -> char {
    (('0' as int) + n) as char
}

/// The decimal text of a number.
pub open spec fn decimal(n: int) -> Seq<char>
    decreases n,
{
    if n < 10 {
        seq![digit_char(n)]
    } else {
        decimal(n / 10).push(digit_char(n % 10))
    }
}

/// Whether a text is made of decimal digits.
pub open spec fn all_digits(s: Seq<char>) -> bool {
    forall|i: int| 0 <= i < s.len() ==> '0' <= #[trigger] s[i] <= '9'
}

/// The number that decimal digits stand for.
pub open spec fn digits_value(s: Seq<char>) -> int
    decreases s.len(),
{
    if s.len() == 0 {
        0
    } else {
        digits_value(s.drop_last()) * 10 + (s.last() as int - '0' as int)
    }
}

/// The digits of an unsigned number: everything behind an optional plus sign.
pub open spec fn unsigned_digits(s: Seq<char>) -> Seq<char> {
    if s.len() > 0 && s[0] == '+' {
        s.skip(1)
    } else {
        s
    }
}

/// The unsigned number a text stands for: digits behind an optional plus sign, and not too large.
pub open spec fn unsigned_of(s: Seq<char>) -> Option<u64> {
    let d = unsigned_digits(s);
    if d.len() > 0 && all_digits(d) && digits_value(d) <= u64::MAX {
        Some(digits_value(d) as u64)
    } else {
        None
    }
}

/// Appends a text.
pub fn append_text(s: &mut String, t: &str)
    ensures
        final(s)@ == old(s)@ + t@,
{
    let chars = to_chars(t);
    let ghost before = s@;
    let mut i: usize = 0;
    assert(before + t@.take(0) =~= before);
    while i < chars.len()
        invariant
            i <= chars.len(),
            chars@ == t@,
            s@ == before + t@.take(i as int),
        decreases chars.len() - i,
    {
        s.push(chars[i]);
        i += 1;
        assert(before + t@.take(i as int) =~= (before + t@.take(i - 1)).push(t@[i - 1]));
    }
    assert(t@.take(t@.len() as int) =~= t@);
}

fn digit(n: u64) -> (c: char)
    requires
        n < 10,
    ensures
        c == digit_char(n as int),
{
    match n {
        0 => '0',
        1 => '1',
        2 => '2',
        3 => '3',
        4 => '4',
        5 => '5',
        6 => '6',
        7 => '7',
        8 => '8',
        _ => '9',
    }
}

/// Appends a number in decimal.
pub fn append_number(s: &mut String, n: u64)
    ensures
        final(s)@ == old(s)@ + decimal(n as int),
    decreases n,
{
    let ghost before = s@;
    if n >= 10 {
        append_number(s, n / 10);
    }
    s.push(digit(n % 10));
    assert(s@ =~= before + decimal(n as int));
}

/// The decimal text of a number.
pub fn number_text(n: u64) -> (s: String)
    ensures
        s@ == decimal(n as int),
{
    let mut s = String::new();
    append_number(&mut s, n);
    assert(Seq::<char>::empty() + decimal(n as int) =~= decimal(n as int));
    s
}

/// Digits in front only make a number larger.
proof fn digits_value_grows(s: Seq<char>, n: int)
    requires
        0 <= n <= s.len(),
        all_digits(s),
    ensures
        0 <= digits_value(s.take(n)) <= digits_value(s),
    decreases s.len() - n,
{
    if n < s.len() {
        digits_value_grows(s, n + 1);
        assert(s.take(n + 1).drop_last() =~= s.take(n));
        digits_nonnegative(s.take(n));
        assert('0' <= s[n] <= '9');
        assert(s.take(n + 1).last() == s[n]);
    } else {
        assert(s.take(n) =~= s);
        digits_nonnegative(s);
    }
}

proof fn digits_nonnegative(s: Seq<char>)
    requires
        all_digits(s),
    ensures
        digits_value(s) >= 0,
    decreases s.len(),
{
    if s.len() > 0 {
        assert(all_digits(s.drop_last())) by {
            assert forall|i: int| 0 <= i < s.drop_last().len() implies '0' <= #[trigger] s.drop_last()[i]
                <= '9' by {
                assert(s.drop_last()[i] == s[i]);
            }
        }
        digits_nonnegative(s.drop_last());
        assert('0' <= s[s.len() - 1] <= '9');
    }
}

fn digit_value(c: char) -> (r: Option<u64>)
    ensures
        match r {
            Some(d) => '0' <= c <= '9' && d == c as int - '0' as int && d < 10,
            None => !('0' <= c <= '9'),
        },
{
    if '0' <= c && c <= '9' {
        Some((c as u64) - 48)
    } else {
        None
    }
}

/// Reads an unsigned number.
pub fn parse_unsigned(s: &str) -> (r: Option<u64>)
    ensures
        r == unsigned_of(s@),
{
    let chars = to_chars(s);
    let start: usize = if chars.len() > 0 && chars[0] == '+' {
        1
    } else {
        0
    };
    let ghost d = unsigned_digits(s@);
    assert(d =~= s@.skip(start as int));
    if start == chars.len() {
        return None;
    }
    let mut value: u64 = 0;
    let mut i: usize = start;
    while i < chars.len()
        invariant
            start <= i <= chars.len(),
            chars@ == s@,
            d == unsigned_digits(s@),
            d == s@.skip(start as int),
            all_digits(d.take(i - start)),
            value == digits_value(d.take(i - start)),
        decreases chars.len() - i,
    {
        assert(d[i - start] == chars@[i as int]);
        match digit_value(chars[i]) {
            None => {
                assert(!('0' <= d[i - start] <= '9'));
                return None;
            },
            Some(v) => {
                let ghost next = d.take(i - start + 1);
                assert(next.drop_last() =~= d.take(i - start));
                assert(next.last() == d[i - start]);
                assert(digits_value(next) == value * 10 + v);
                assert(all_digits(next)) by {
                    assert forall|k: int| 0 <= k < next.len() implies '0' <= #[trigger] next[k]
                        <= '9' by {
                        if k < i - start {
                            assert(next[k] == d.take(i - start)[k]);
                        }
                    }
                }
                let ghost too_large = value * 10 + v > u64::MAX;
                if value > 1844674407370955161 || (value == 1844674407370955161 && v > 5) {
                    assert(too_large);
                    proof {
                        if all_digits(d) {
                            digits_value_grows(d, i - start + 1);
                        }
                    }
                    return None;
                }
                value = value * 10 + v;
                i += 1;
            },
        }
    }
    assert(d.take(d.len() as int) =~= d);
    Some(value)
}

proof fn decimal_digits(n: int)
    requires
        n >= 0,
    ensures
        decimal(n).len() > 0,
        all_digits(decimal(n)),
        digits_value(decimal(n)) == n,
    decreases n,
{
    if n >= 10 {
        decimal_digits(n / 10);
        let rest = decimal(n / 10);
        assert(decimal(n).drop_last() =~= rest);
    } else {
        assert(decimal(n).drop_last() =~= Seq::<char>::empty());
        assert(digits_value(Seq::<char>::empty()) == 0);
    }
}

/// Reading a number's decimal text gives the number back.
pub proof fn decimal_round_trip(n: u64)
    ensures
        unsigned_of(decimal(n as int)) == Some(n),
{
    decimal_digits(n as int);
    let d = decimal(n as int);
    assert('0' <= d[0] <= '9');
}

/// A setting that reads as a positive number, or the default.
pub open spec fn positive_of(setting: Option<Seq<char>>, default: u64) -> u64 {
    match setting {
        Some(s) => match unsigned_of(s) {
            Some(n) => if n > 0 {
                n
            } else {
                default
            },
            None => default,
        },
        None => default,
    }
}

/// A setting that reads as a positive number, or the default.
pub fn positive_or(setting: Option<&String>, default: u64) -> (r: u64)
    ensures
        r == positive_of(setting.deep_view(), default),
{
    match setting {
        Some(s) => match parse_unsigned(s.as_str()) {
            Some(n) => if n > 0 {
                n
            } else {
                default
            },
            None => default,
        },
        None => default,
    }
}


/// A digit behind some others counts once, and they count ten times as much.
pub proof fn digits_are_positional(s: Seq<char>, c: char)
    ensures
        digits_value(Seq::empty()) == 0,
        digits_value(s.push(c)) == 10 * digits_value(s) + (c as int - 48),
{
    assert(s.push(c).drop_last() =~= s);
}

/// The text of a number is made of digits, without a zero in front of others, and stands for it.
pub proof fn numbers_are_written_in_digits(n: int)
    requires
        n >= 0,
    ensures
        decimal(n).len() > 0,
        forall|i: int| 0 <= i < decimal(n).len() ==> '0' <= #[trigger] decimal(n)[i] <= '9',
        decimal(n)[0] == '0' ==> n == 0 && decimal(n).len() == 1,
        digits_value(decimal(n)) == n,
    decreases n,
{
    decimal_digits(n);
    if n >= 10 {
        numbers_are_written_in_digits(n / 10);
        assert(decimal(n)[0] == decimal(n / 10)[0]);
    }
}

/// Exactly one or more digits, with at most one plus sign in front, read as a number, if it fits 64
/// bits.
pub proof fn only_digits_read_as_numbers(s: Seq<char>)
    ensures
        ({
            let d = if s.len() > 0 && s[0] == '+' {
                s.skip(1)
            } else {
                s
            };
            let digits = d.len() > 0 && all_digits(d);
            &&& digits && digits_value(d) <= u64::MAX ==> unsigned_of(s) == Some(
                digits_value(d) as u64,
            )
            &&& !digits || digits_value(d) > u64::MAX ==> unsigned_of(s) is None
        }),
        all_digits(s) <==> forall|i: int| 0 <= i < s.len() ==> 48 <= #[trigger] s[i] as int <= 57,
{
}

/// A setting counts when it reads as a number other than zero, and the default counts otherwise.
pub proof fn zero_counts_as_unset(setting: Option<Seq<char>>, default: u64)
    ensures
        setting is Some && unsigned_of(setting->0) is Some && unsigned_of(setting->0)->0 != 0
            ==> Some(positive_of(setting, default)) == unsigned_of(setting->0),
        setting is None || unsigned_of(setting->0) is None || unsigned_of(setting->0)->0 == 0
            ==> positive_of(setting, default) == default,
{
}

} // verus!
