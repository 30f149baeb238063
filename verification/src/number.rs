//! Decimal numbers.

use vstd::prelude::*;

verus! {

/// The decimal digit for a number below ten.
pub open spec fn digit(n: nat) -> char {
    (('0' as u32) + n) as char
}

/// The decimal digits of a number, without leading zeros.
pub open spec fn decimal(n: nat) -> Seq<char>
    decreases n,
{
    if n < 10 {
        seq![digit(n)]
    } else {
        decimal(n / 10).push(digit(n % 10))
    }
}

fn digit_char(n: usize) -> (r: char)
    requires
        n < 10,
    ensures
        r == digit(n as nat),
{
    match n {
        0 => '0',
        1 => '1',
        2 => '2',
        3 => '3',
        4 => '4',
        5 => '5',
        6 => '6',
        7 => '7',
        8 => '8',
        _ => '9',
    }
}

/// Writes a number in decimal.
pub fn decimal_chars(n: usize) -> (r: Vec<char>)
    ensures
        r@ == decimal(n as nat),
    decreases n,
{
    if n < 10 {
        let mut v: Vec<char> = Vec::new();
        v.push(digit_char(n));
        proof {
            assert(v@ =~= seq![digit(n as nat)]);
        }
        v
    } else {
        let mut v = decimal_chars(n / 10);
        v.push(digit_char(n % 10));
        v
    }
}

/// The decimal form of an integer, with a `-` where it is negative.
pub open spec fn decimal_int(n: int) -> Seq<char> {
    if n < 0 {
        seq!['-'] + decimal((-n) as nat)
    } else {
        decimal(n as nat)
    }
}

/// Writes an integer in decimal.
pub fn decimal_i32(n: i32) -> (r: Vec<char>)
    ensures
        r@ == decimal_int(n as int),
{
    if n < 0 {
        let mut out: Vec<char> = Vec::new();
        out.push('-');
        let m: i64 = -(n as i64);
        let digits = decimal_chars(m as usize);
        crate::text::append(&mut out, digits.as_slice());
        proof {
            assert(out@ =~= seq!['-'] + decimal((-n) as nat));
        }
        out
    } else {
        decimal_chars(n as usize)
    }
}

/// Whether a character is a decimal digit.
pub open spec fn is_digit(c: char) -> bool {
    '0' <= c <= '9'
}

/// The number that a sequence of digits stands for.
pub open spec fn value(s: Seq<char>) -> nat
    decreases s.len(),
{
    if s.len() == 0 {
        0
    } else {
        value(s.drop_last()) * 10 + ((s.last() as u32) - ('0' as u32)) as nat
    }
}

/// The digits of a number that may begin with a `+`.
pub open spec fn unsigned_part(s: Seq<char>) -> Seq<char> {
    if s.len() > 0 && s[0] == '+' {
        s.skip(1)
    } else {
        s
    }
}

/// The number that a text stands for: an optional `+` and then only digits, at
/// least one, with a value that a `usize` can hold.
pub open spec fn parsed(s: Seq<char>) -> Option<nat> {
    let d = unsigned_part(s);
    if d.len() > 0 && (forall|i: int| 0 <= i < d.len() ==> is_digit(#[trigger] d[i])) && value(d)
        <= usize::MAX {
        Some(value(d))
    } else {
        None
    }
}

proof fn lemma_value_grows(s: Seq<char>, n: int)
    requires
        0 <= n <= s.len(),
        forall|i: int| 0 <= i < s.len() ==> is_digit(#[trigger] s[i]),
    ensures
        value(s.take(n)) <= value(s),
    decreases s.len() - n,
{
    if n < s.len() {
        lemma_value_grows(s, n + 1);
        assert(s.take(n + 1).drop_last() =~= s.take(n));
    } else {
        assert(s.take(n) =~= s);
    }
}

/// Reads a number.
pub fn parse_usize(s: &[char]) -> (r: Option<usize>)
    ensures
        match r {
            Some(n) => parsed(s@) == Some(n as nat),
            None => parsed(s@) is None,
        },
{
    let start: usize = if s.len() > 0 && s[0] == '+' {
        1
    } else {
        0
    };
    let ghost d = unsigned_part(s@);
    proof {
        assert(d =~= s@.skip(start as int));
    }
    if start >= s.len() {
        return None;
    }
    let mut n: usize = 0;
    let mut i: usize = start;
    proof {
        assert(d.take(0) =~= seq![]);
    }
    while i < s.len()
        invariant
            start <= i <= s.len(),
            start < s.len(),
            d == unsigned_part(s@),
            d == s@.skip(start as int),
            n == value(d.take(i - start)),
            forall|j: int| 0 <= j < i - start ==> is_digit(#[trigger] d[j]),
        decreases s.len() - i,
    {
        let c = s[i];
        proof {
            assert(d[i - start] == c);
            assert(d.take(i + 1 - start).drop_last() =~= d.take(i - start));
            assert(d.take(i + 1 - start).last() == c);
        }
        if !('0' <= c && c <= '9') {
            return None;
        }
        let k: usize = (c as u32 - '0' as u32) as usize;
        if n > (usize::MAX - k) / 10 {
            proof {
                if forall|j: int| 0 <= j < d.len() ==> is_digit(#[trigger] d[j]) {
                    lemma_value_grows(d, i + 1 - start);
                }
            }
            return None;
        }
        n = n * 10 + k;
        i = i + 1;
    }
    proof {
        assert(d.take(i - start) =~= d);
    }
    Some(n)
}

pub proof fn lemma_decimal_digits(n: nat)
    ensures
        decimal(n).len() > 0,
        forall|i: int| 0 <= i < decimal(n).len() ==> is_digit(#[trigger] decimal(n)[i]),
        value(decimal(n)) == n,
    decreases n,
{
    if n >= 10 {
        lemma_decimal_digits(n / 10);
        assert(decimal(n).drop_last() =~= decimal(n / 10));
    } else {
        assert(decimal(n).drop_last() =~= seq![]);
        assert(value(seq![]) == 0);
    }
}

/// Reading back a number that was written in decimal gives that number.
pub proof fn lemma_parse_decimal(n: usize)
    ensures
        parsed(decimal(n as nat)) == Some(n as nat),
{
    lemma_decimal_digits(n as nat);
    let s = decimal(n as nat);
    assert(is_digit(s[0]));
    assert(unsigned_part(s) == s);
}

/// A digit behind a number counts ten times the number and itself; only digits, with a
/// `+` before them at most, make a number.
pub proof fn lemma_number(s: Seq<char>, d: char, n: nat)
    ensures
        '0' <= d <= '9' ==> parsed(seq![d]) == Some(((d as u32) - ('0' as u32)) as nat),
        s.len() > 0 && s[0] != '+' && parsed(s) == Some(n) && '0' <= d <= '9' && n * 10 + ((d as u32)
            - ('0' as u32)) <= usize::MAX ==> parsed(s.push(d)) == Some(
            (n * 10 + ((d as u32) - ('0' as u32))) as nat,
        ),
        s.len() > 0 && s[0] != '+' && parsed(s) == Some(n) ==> parsed(seq!['+'] + s) == Some(n),
        s.len() == 0 ==> parsed(s) is None,
        !('0' <= d <= '9') && s.len() > 0 ==> parsed(s.push(d)) is None,
{
    let one = seq![d];
    assert(one.drop_last() =~= seq![]);
    assert(value(seq![]) == 0);
    let t = s.push(d);
    assert(t.drop_last() =~= s);
    if '0' <= d <= '9' {
        assert(unsigned_part(one) == one);
        assert(value(one) == ((d as u32) - ('0' as u32)) as nat);
        if s.len() > 0 && s[0] != '+' && parsed(s) == Some(n) {
            assert(unsigned_part(t) == t);
            assert forall|i: int| 0 <= i < t.len() implies is_digit(#[trigger] t[i]) by {
                if i < s.len() {
                    assert(is_digit(s[i]));
                }
            }
        }
    } else if s.len() > 0 {
        let u = unsigned_part(t);
        assert(u.last() == d);
        assert(!is_digit(u[u.len() - 1]));
    }
    assert((seq!['+'] + s).skip(1) =~= s);
}

} // verus!
