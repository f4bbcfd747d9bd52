//! Decimal numerals.
use vstd::prelude::*;

verus! {

/// The numeral of a number below ten.
pub open spec fn digit(d: nat) -> char {
    if d == 0 {
        '0'
    } else if d == 1 {
        '1'
    } else if d == 2 {
        '2'
    } else if d == 3 {
        '3'
    } else if d == 4 {
        '4'
    } else if d == 5 {
        '5'
    } else if d == 6 {
        '6'
    } else if d == 7 {
        '7'
    } else if d == 8 {
        '8'
    } else {
        '9'
    }
}

/// The decimal numeral of `n`, without leading zeros.
pub open spec fn decimal(n: nat) -> Seq<char>
    decreases n,
{
    if n < 10 {
        seq![digit(n)]
    } else {
        decimal(n / 10).push(digit(n % 10))
    }
}

/// The decimal numeral of an integer, with a sign where it is negative.
pub open spec fn signed_decimal(n: int) -> Seq<char> {
    if n < 0 {
        seq!['-'] + decimal((-n) as nat)
    } else {
        decimal(n as nat)
    }
}

fn digit_char(d: u64) -> (r: char)
    requires
        d < 10,
    ensures
        r == digit(d as nat),
{
    match d {
        0 => '0',
        1 => '1',
        2 => '2',
        3 => '3',
        4 => '4',
        5 => '5',
        6 => '6',
        7 => '7',
        8 => '8',
        _ => '9',
    }
}

/// The decimal numeral of `n`.
pub fn decimal_chars(n: u64) -> (r: Vec<char>)
    ensures
        r@ == decimal(n as nat),
    decreases n,
{
    let mut out: Vec<char> = Vec::new();
    if n < 10 {
        out.push(digit_char(n));
        assert(out@ =~= seq![digit(n as nat)]);
    } else {
        out = decimal_chars(n / 10);
        out.push(digit_char(n % 10));
    }
    out
}

/// The decimal numeral of `n`.
pub fn signed_decimal_chars(n: i32) -> (r: Vec<char>)
    ensures
        r@ == signed_decimal(n as int),
{
    if n < 0 {
        let magnitude: u64 = (-(n as i64)) as u64;
        let mut out: Vec<char> = Vec::new();
        out.push('-');
        let mut digits = decimal_chars(magnitude);
        out.append(&mut digits);
        assert(out@ =~= seq!['-'] + decimal((-n) as nat));
        out
    } else {
        decimal_chars(n as u64)
    }
}

/// The number below ten that `c` is the numeral of.
pub open spec fn digit_value(c: char) -> Option<nat> {
    if '0' <= c <= '9' {
        Some((c as nat - '0' as nat) as nat)
    } else {
        None
    }
}

/// The number that the digits `t` write; the empty text writes zero.
pub open spec fn digits_value(t: Seq<char>) -> Option<nat>
    decreases t.len(),
{
    if t.len() == 0 {
        Some(0)
    } else {
        match (digits_value(t.drop_last()), digit_value(t.last())) {
            (Some(high), Some(low)) => Some(high * 10 + low),
            _ => None,
        }
    }
}

/// The integer between `low` and `high` that `t` writes, with an optional `+`
/// sign, and with an optional `-` sign where `negative` allows one.
pub open spec fn integer_value(t: Seq<char>, negative: bool, low: int, high: int) -> Option<int> {
    let minus = negative && t.len() > 0 && t[0] == '-';
    let plus = t.len() > 0 && t[0] == '+';
    let digits = if minus || plus {
        t.skip(1)
    } else {
        t
    };
    match digits_value(digits) {
        Some(n) => {
            let value = if minus {
                -(n as int)
            } else {
                n as int
            };
            if digits.len() > 0 && low <= value <= high {
                Some(value)
            } else {
                None
            }
        },
        None => None,
    }
}

proof fn lemma_digits_value_grows(t: Seq<char>, k: int)
    requires
        0 <= k <= t.len(),
    ensures
        digits_value(t) is Some ==> digits_value(t.take(k)) is Some && digits_value(t.take(k))->0
            <= digits_value(t)->0,
    decreases t.len(),
{
    if k == t.len() {
        assert(t.take(k) =~= t);
    } else {
        lemma_digits_value_grows(t.drop_last(), k);
        assert(t.drop_last().take(k) =~= t.take(k));
    }
}

/// The number that the digits `t[start..]` write, if it is at most `high`.
fn digits_up_to(t: &[char], start: usize, high: u64) -> (r: Option<u64>)
    requires
        start <= t@.len(),
    ensures
        match r {
            Some(n) => digits_value(t@.skip(start as int)) == Some(n as nat) && n <= high,
            None => match digits_value(t@.skip(start as int)) {
                Some(n) => n > high,
                None => true,
            },
        },
{
    let mut value: u128 = 0;
    let mut k: usize = start;
    let ghost all = t@.skip(start as int);
    assert(all.take(0) =~= Seq::<char>::empty());
    while k < t.len()
        invariant
            start <= k <= t@.len(),
            all == t@.skip(start as int),
            digits_value(all.take(k - start)) == Some(value as nat),
            value <= high,
        decreases t@.len() - k,
    {
        let c = t[k];
        let ghost now = all.take(k - start + 1);
        assert(now.drop_last() =~= all.take(k - start));
        assert(now.last() == c);
        if c < '0' || c > '9' {
            proof {
                lemma_digits_value_grows(all, k - start + 1);
            }
            return None;
        }
        let low: u128 = c as u128 - '0' as u128;
        value = value * 10 + low;
        k += 1;
        if value > high as u128 {
            proof {
                lemma_digits_value_grows(all, k - start);
            }
            return None;
        }
    }
    assert(all.take(k - start) =~= all);
    Some(value as u64)
}

/// The 32-bit integer that `t` writes.
pub fn parse_i32(t: &[char]) -> (r: Option<i32>)
    ensures
        match r {
            Some(n) => integer_value(t@, true, i32::MIN as int, i32::MAX as int) == Some(n as int),
            None => integer_value(t@, true, i32::MIN as int, i32::MAX as int) is None,
        },
{
    assert(t@.skip(0) =~= t@);
    let minus = t.len() > 0 && t[0] == '-';
    let plus = t.len() > 0 && t[0] == '+';
    let start: usize = if minus || plus {
        1
    } else {
        0
    };
    if start == t.len() {
        return None;
    }
    match digits_up_to(t, start, 0x8000_0000) {
        Some(n) => {
            if minus {
                Some((-(n as i64)) as i32)
            } else if n <= 0x7fff_ffff {
                Some(n as i32)
            } else {
                None
            }
        },
        None => None,
    }
}

/// The unsigned number that `t` writes, where it is at most `high`.
pub fn parse_unsigned(t: &[char], high: u64) -> (r: Option<u64>)
    ensures
        match r {
            Some(n) => integer_value(t@, false, 0, high as int) == Some(n as int),
            None => integer_value(t@, false, 0, high as int) is None,
        },
{
    assert(t@.skip(0) =~= t@);
    let start: usize = if t.len() > 0 && t[0] == '+' {
        1
    } else {
        0
    };
    if start == t.len() {
        return None;
    }
    digits_up_to(t, start, high)
}

/// A numeral is read back as the number that it writes, with a plus sign too
/// where the number is not negative, and only digits and one sign are read.
pub proof fn law_numerals_are_read_back(n: int, low: int, high: int)
    requires
        low <= n <= high,
    ensures
        integer_value(signed_decimal(n), true, low, high) == Some(n),
        n >= 0 ==> integer_value(signed_decimal(n), false, low, high) == Some(n),
        n >= 0 ==> integer_value(seq!['+'] + signed_decimal(n), true, low, high) == Some(n),
{
    let m = if n < 0 {
        (-n) as nat
    } else {
        n as nat
    };
    lemma_decimal_value(m);
    let t = signed_decimal(n);
    if n < 0 {
        assert(t.skip(1) =~= decimal(m));
    } else {
        lemma_decimal_first(m);
        assert((seq!['+'] + t).skip(1) =~= t);
        assert((seq!['+'] + t)[0] == '+');
    }
}

/// A text with a character that is neither a digit nor a leading sign writes no
/// integer, nor does a sign alone or an empty text.
pub proof fn law_integers_are_digits(t: Seq<char>, negative: bool, low: int, high: int, k: int)
    requires
        0 <= k < t.len(),
        !('0' <= t[k] <= '9'),
        k > 0 || (t[0] != '+' && t[0] != '-'),
    ensures
        integer_value(t, negative, low, high) is None,
        integer_value(Seq::empty(), negative, low, high) is None,
        integer_value(seq!['+'], negative, low, high) is None,
{
    if (t[0] == '+' || t[0] == '-') && k > 0 {
        let rest = t.skip(1);
        assert(rest[k - 1] == t[k]);
        lemma_digits_only(rest, k - 1);
        lemma_digits_only(t, k);
    } else {
        lemma_digits_only(t, k);
    }
    assert(seq!['+'].skip(1) =~= Seq::empty());
}

proof fn lemma_digits_only(t: Seq<char>, k: int)
    requires
        0 <= k < t.len(),
        !('0' <= t[k] <= '9'),
    ensures
        digits_value(t) is None,
    decreases t.len(),
{
    if k < t.len() - 1 {
        assert(t.drop_last()[k] == t[k]);
        lemma_digits_only(t.drop_last(), k);
    }
}

proof fn lemma_decimal_value(n: nat)
    ensures
        digits_value(decimal(n)) == Some(n),
        decimal(n).len() > 0,
    decreases n,
{
    let t = decimal(n);
    let low: nat = n % 10;
    assert(digit_value(digit(low)) == Some(low));
    if n >= 10 {
        lemma_decimal_value(n / 10);
        assert(n == (n / 10) * 10 + n % 10);
        assert(t.drop_last() =~= decimal(n / 10));
        assert(t.last() == digit(low));
        let high: nat = n / 10;
        assert(digits_value(t.drop_last()) == Some(high));
        assert(digits_value(t) == Some(high * 10 + low));
    } else {
        assert(low == n);
        assert(t.drop_last() =~= Seq::empty());
        assert(digits_value(t.drop_last()) == Some(0nat));
        assert(t.last() == digit(low));
        assert(digits_value(t) == Some(0 * 10 + low));
    }
}

proof fn lemma_decimal_first(n: nat)
    ensures
        decimal(n).len() > 0,
        '0' <= decimal(n)[0] <= '9',
    decreases n,
{
    if n >= 10 {
        lemma_decimal_first(n / 10);
        assert(decimal(n)[0] == decimal(n / 10)[0]);
    }
}

/// A numeral consists of digits.
pub proof fn lemma_decimal_digits(n: nat)
    ensures
        decimal(n).len() > 0,
        forall|k: int| 0 <= k < decimal(n).len() ==> '0' <= #[trigger] decimal(n)[k] <= '9',
    decreases n,
{
    if n >= 10 {
        lemma_decimal_digits(n / 10);
        let t = decimal(n);
        assert forall|k: int| 0 <= k < t.len() implies '0' <= #[trigger] t[k] <= '9' by {
            if k < t.len() - 1 {
                assert(t[k] == decimal(n / 10)[k]);
            }
        }
    }
}

} // verus!
