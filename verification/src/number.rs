//! Unsigned numbers in decimal notation.

use vstd::prelude::*;

verus! {

/// The digit for a number below ten.
pub open spec fn digit(d: nat) -> char {
    (48 + d) as char
}

/// `c` is one of the ten decimal digits.
pub open spec fn is_digit(c: char) -> bool {
    '0' <= c <= '9'
}

/// The decimal notation of `n`, without leading zeros.
pub open spec fn decimal(n: nat) -> Seq<char>
    decreases n,
{
    if n < 10 {
        seq![digit(n)]
    } else {
        decimal(n / 10).push(digit(n % 10))
    }
}

/// The number that a run of digits stands for.
pub open spec fn value(s: Seq<char>) -> nat
    decreases s.len(),
{
    if s.len() == 0 {
        0
    } else {
        (10 * value(s.drop_last()) + (s.last() as int - 48)) as nat
    }
}

/// What a number may be written with: digits, and a plus sign in front.
pub open spec fn unsigned_part(s: Seq<char>) -> Seq<char> {
    if s.len() > 0 && s[0] == '+' {
        s.drop_first()
    } else {
        s
    }
}

/// The number written in `s`: an optional plus sign and at least one digit, with
/// a value that a `usize` can hold.
pub open spec fn parsed(s: Seq<char>) -> Option<usize> {
    let digits = unsigned_part(s);
    if digits.len() > 0 && (forall|i: int| 0 <= i < digits.len() ==> is_digit(#[trigger] digits[i]))
        && value(digits) <= usize::MAX {
        Some(value(digits) as usize)
    } else {
        None
    }
}

/// A longer run of digits stands for no smaller number.
proof fn lemma_value_grows(s: Seq<char>, n: int)
    requires
        0 <= n <= s.len(),
        forall|i: int| 0 <= i < s.len() ==> is_digit(#[trigger] s[i]),
    ensures
        value(s.take(n)) <= value(s),
    decreases s.len() - n,
{
    if n < s.len() {
        lemma_value_grows(s, n + 1);
        let longer = s.take(n + 1);
        assert(longer.drop_last() == s.take(n));
        assert(is_digit(longer.last()));
    } else {
        assert(s.take(n) == s);
    }
}

/// Writes a number in decimal notation.
pub fn write_decimal(n: usize) -> (r: String)
    ensures
        r@ == decimal(n as nat),
    decreases n,
{
    let mut r: String;
    if n < 10 {
        r = String::new();
    } else {
        r = write_decimal(n / 10);
    }
    let last: u8 = 48 + (n % 10) as u8;
    r.push(last as char);
    proof {
        if n < 10 {
            assert(r@ == seq![digit(n as nat)]);
        }
    }
    r
}

/// Reads a number in decimal notation.
pub fn parse_decimal(s: &[char]) -> (r: Option<usize>)
    ensures
        r == parsed(s@),
{
    let start: usize = if s.len() > 0 && s[0] == '+' { 1 } else { 0 };
    let ghost digits = unsigned_part(s@);
    assert(digits == s@.skip(start as int));
    if start == s.len() {
        return None;
    }
    let mut n: usize = 0;
    let mut i: usize = start;
    while i < s.len()
        invariant
            start <= i <= s.len(),
            digits == s@.skip(start as int),
            digits == unsigned_part(s@),
            digits.len() > 0,
            forall|j: int| 0 <= j < i - start ==> is_digit(#[trigger] digits[j]),
            n == value(digits.take(i - start)),
        decreases s.len() - i,
    {
        let c = s[i];
        assert(c == digits[i - start]);
        if c < '0' || c > '9' {
            assert(!is_digit(digits[i - start]));
            return None;
        }
        let d: usize = (c as u32 - 48) as usize;
        proof {
            let longer = digits.take(i - start + 1);
            assert(longer.drop_last() == digits.take(i - start));
            assert(longer.last() == c);
            assert(value(longer) == 10 * n + d);
            if 10 * n + d > usize::MAX && (forall|j: int|
                0 <= j < digits.len() ==> is_digit(#[trigger] digits[j])) {
                lemma_value_grows(digits, i - start + 1);
            }
        }
        n = match n.checked_mul(10) {
            Some(m) => match m.checked_add(d) {
                Some(sum) => sum,
                None => return None,
            },
            None => return None,
        };
        i += 1;
    }
    assert(digits.take(i - start) == digits);
    Some(n)
}

/// A number reads back as what was written.
pub proof fn law_decimal_reads_back(n: usize)
    ensures
        parsed(decimal(n as nat)) == Some(n),
{
    lemma_decimal_digits(n as nat);
    let s = decimal(n as nat);
    assert(is_digit(s[0]));
    assert(unsigned_part(s) == s);
}

proof fn lemma_decimal_digits(n: nat)
    ensures
        decimal(n).len() > 0,
        forall|i: int| 0 <= i < decimal(n).len() ==> is_digit(#[trigger] decimal(n)[i]),
        value(decimal(n)) == n,
    decreases n,
{
    let s = decimal(n);
    if n < 10 {
        assert(s.drop_last() == Seq::<char>::empty());
        assert(value(s.drop_last()) == 0);
    } else {
        lemma_decimal_digits(n / 10);
        assert(s.drop_last() == decimal(n / 10));
    }
}

/// A number below ten is written with its digit, and a further digit is written
/// behind the number that it multiplies by ten.
pub proof fn law_decimal_digit_by_digit(n: nat, d: nat)
    requires
        d < 10,
    ensures
        decimal(d) == seq!["0123456789"@[d as int]],
        n > 0 ==> decimal(10 * n + d) == decimal(n).push("0123456789"@[d as int]),
{
    reveal_strlit("0123456789");
    assert("0123456789"@[d as int] as int == 48 + d);
}

/// Reading one digit more multiplies by ten and adds the digit, as long as the number
/// can be held.
pub proof fn law_reading_digit_by_digit(s: Seq<char>, d: nat)
    requires
        d < 10,
        s.len() > 0,
        forall|i: int| 0 <= i < s.len() ==> '0' <= #[trigger] s[i] <= '9',
    ensures
        ({
            let c = "0123456789"@[d as int];
            &&& parsed(seq![c]) == Some(d as usize)
            &&& match parsed(s) {
                Some(n) => parsed(s.push(c)) == (if 10 * n + d <= usize::MAX {
                    Some((10 * n + d) as usize)
                } else {
                    None::<usize>
                }),
                None => parsed(s.push(c)) is None,
            }
        }),
{
    reveal_strlit("0123456789");
    let c = "0123456789"@[d as int];
    assert(c as int == 48 + d);
    let one = seq![c];
    assert(one.drop_last() == Seq::<char>::empty());
    assert(value(one.drop_last()) == 0);
    assert(one.last() == c);
    assert(value(one) == d);
    assert(is_digit(one[0]));
    assert(unsigned_part(one) == one);
    let more = s.push(c);
    assert('0' <= s[0] <= '9');
    assert(unsigned_part(s) == s);
    assert(more[0] == s[0]);
    assert(unsigned_part(more) == more);
    assert(more.drop_last() == s);
    assert(value(more) == 10 * value(s) + d);
    assert forall|i: int| 0 <= i < more.len() implies is_digit(#[trigger] more[i]) by {
        if i < s.len() {
            assert(more[i] == s[i]);
        }
    }
    assert forall|i: int| 0 <= i < s.len() implies is_digit(#[trigger] s[i]) by {
        assert('0' <= s[i] <= '9');
    }
}

/// A plus sign in front of digits changes nothing, and a text without a digit, or with
/// anything else in it, is no number.
pub proof fn law_only_digits_are_read(s: Seq<char>, i: int)
    ensures
        s.len() > 0 && s[0] != '+' ==> parsed(seq!['+'] + s) == parsed(s),
        parsed(Seq::<char>::empty()) is None,
        parsed(seq!['+']) is None,
        0 <= i < s.len() && !('0' <= s[i] <= '9') && !(i == 0 && s[0] == '+') ==> parsed(s) is None,
{
    let signed = seq!['+'] + s;
    assert(signed.drop_first() == s);
    assert(signed[0] == '+');
    assert(seq!['+'].drop_first() == Seq::<char>::empty());
    if 0 <= i < s.len() && !('0' <= s[i] <= '9') && !(i == 0 && s[0] == '+') {
        let digits = unsigned_part(s);
        if s[0] == '+' {
            assert(digits[i - 1] == s[i]);
            assert(!is_digit(digits[i - 1]));
        } else {
            assert(!is_digit(digits[i]));
        }
    }
}

} // verus!
