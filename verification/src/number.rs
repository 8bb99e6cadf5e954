//! Numbers as text: decimal digits, zero and space padding, and reading a number back.

use vstd::prelude::*;

use crate::text::{append, digit, all_digits, is_digit, string_of};
use vstd::slice::slice_subrange;

verus! {

/// The character of one decimal digit.
pub open spec fn digit_char(d: nat) -> char {
    ((48 + d) as u8) as char
}

/// The value of one decimal digit character.
pub open spec fn digit_value(c: char) -> nat {
    ((c as u8) - 48) as nat
}

/// The decimal digits of a number, without leading zeros.
pub open spec fn decimal(n: nat) -> Seq<char>
    decreases n,
{
    if n < 10 {
        seq![digit_char(n)]
    } else {
        decimal(n / 10).push(digit_char(n % 10))
    }
}

/// The number that a sequence of decimal digits stands for.
pub open spec fn digits_value(s: Seq<char>) -> nat
    decreases s.len(),
{
    if s.len() == 0 {
        0
    } else {
        digits_value(s.drop_last()) * 10 + digit_value(s.last())
    }
}

/// Decimal digits are digits, there is at least one, and they read back as the number.
pub proof fn lemma_decimal(n: nat)
    ensures
        decimal(n).len() >= 1,
        all_digits(decimal(n)),
        digits_value(decimal(n)) == n,
    decreases n,
{
    if n < 10 {
        let d = decimal(n);
        assert(d.drop_last() =~= Seq::<char>::empty());
        assert(digits_value(Seq::<char>::empty()) == 0);
        assert(digit_value(digit_char(n)) == n);
    } else {
        lemma_decimal(n / 10);
        let d = decimal(n);
        assert(d.drop_last() =~= decimal(n / 10));
        assert(digit_value(digit_char(n % 10)) == n % 10);
    }
}

/// A number below a power of ten has at most that many digits.
pub proof fn lemma_decimal_len(n: nat, width: nat)
    requires
        width >= 1,
        n < power10(width),
    ensures
        decimal(n).len() <= width,
    decreases width,
{
    if n >= 10 {
        if width == 1 {
            assert(power10(0) == 1);
            assert(power10(1) == 10);
        } else {
            lemma_decimal_len(n / 10, (width - 1) as nat);
        }
    }
}

/// Ten to the given power.
pub open spec fn power10(k: nat) -> nat
    decreases k,
{
    if k == 0 {
        1
    } else {
        10 * power10((k - 1) as nat)
    }
}

/// Adding a digit at the end never makes the value smaller.
pub proof fn lemma_digits_value_grows(s: Seq<char>, k: int)
    requires
        0 <= k <= s.len(),
    ensures
        digits_value(s.take(k)) <= digits_value(s),
    decreases s.len(),
{
    if k < s.len() {
        lemma_digits_value_grows(s.drop_last(), k);
        assert(s.drop_last().take(k) =~= s.take(k));
    } else {
        assert(s.take(k) =~= s);
    }
}

pub fn decimal_chars(n: u64) -> (r: Vec<char>)
    ensures
        r@ == decimal(n as nat),
    decreases n,
{
    let c = (48 + (n % 10) as u8) as char;
    if n < 10 {
        let mut out: Vec<char> = Vec::new();
        out.push(c);
        assert(out@ =~= seq![c]);
        out
    } else {
        let mut out = decimal_chars(n / 10);
        out.push(c);
        out
    }
}

/// The decimal text of a number.
pub fn decimal_of(n: u64) -> (r: String)
    ensures
        r@ == decimal(n as nat),
{
    string_of(decimal_chars(n).as_slice())
}

/// The decimal text of a signed number.
pub open spec fn signed_decimal(n: int) -> Seq<char> {
    if n < 0 {
        seq!['-'] + decimal((-n) as nat)
    } else {
        decimal(n as nat)
    }
}

/// The decimal text of a signed number.
pub fn signed_decimal_of(n: i32) -> (r: String)
    ensures
        r@ == signed_decimal(n as int),
{
    if n < 0 {
        let mut out = String::new();
        out.push('-');
        assert(out@ =~= seq!['-']);
        let size: i64 = -(n as i64);
        out.append(decimal_of(size as u64).as_str());
        out
    } else {
        decimal_of(n as u64)
    }
}

/// `k` times the character `c`.
pub open spec fn repeated(c: char, k: int) -> Seq<char> {
    Seq::new(if k > 0 { k as nat } else { 0 }, |i: int| c)
}

pub fn repeat(c: char, k: usize) -> (r: Vec<char>)
    ensures
        r@ == repeated(c, k as int),
{
    let mut out: Vec<char> = Vec::new();
    for i in 0..k
        invariant
            out@ == repeated(c, i as int),
    {
        out.push(c);
        assert(out@ =~= repeated(c, i + 1));
    }
    out
}

/// The decimal digits with zeros in front, up to the width.
pub open spec fn zero_padded(n: nat, width: int) -> Seq<char> {
    repeated('0', width - decimal(n).len()) + decimal(n)
}

pub fn zero_pad(n: u64, width: usize) -> (r: String)
    ensures
        r@ == zero_padded(n as nat, width as int),
{
    let d = decimal_chars(n);
    let mut out = if d.len() < width {
        repeat('0', width - d.len())
    } else {
        Vec::new()
    };
    assert(out@ =~= repeated('0', width - d@.len()));
    append(&mut out, d.as_slice());
    string_of(out.as_slice())
}

/// The text with spaces behind it, up to the width in characters.
pub open spec fn left_aligned(s: Seq<char>, width: int) -> Seq<char> {
    s + repeated(' ', width - s.len())
}

/// The text with spaces in front of it, up to the width in characters.
pub open spec fn right_aligned(s: Seq<char>, width: int) -> Seq<char> {
    repeated(' ', width - s.len()) + s
}

pub fn align_left(s: &str, width: usize) -> (r: String)
    ensures
        r@ == left_aligned(s@, width as int),
{
    let mut out = crate::text::chars_of(s);
    let n = out.len();
    if n < width {
        append(&mut out, repeat(' ', width - n).as_slice());
    } else {
        assert(out@ =~= left_aligned(s@, width as int));
    }
    string_of(out.as_slice())
}

pub fn align_right(s: &str, width: usize) -> (r: String)
    ensures
        r@ == right_aligned(s@, width as int),
{
    let cs = crate::text::chars_of(s);
    let mut out = if cs.len() < width {
        repeat(' ', width - cs.len())
    } else {
        Vec::new()
    };
    assert(out@ =~= repeated(' ', width - cs@.len()));
    append(&mut out, cs.as_slice());
    string_of(out.as_slice())
}

/// The digits of a number written with an optional plus sign in front.
pub open spec fn unsigned_digits(s: Seq<char>) -> Seq<char> {
    if s.len() > 0 && s[0] == '+' {
        s.drop_first()
    } else {
        s
    }
}

/// The number that a text writes: an optional plus sign, at least one digit, nothing else, and no
/// more than `max`.
pub open spec fn parsed_number(s: Seq<char>, max: nat) -> Option<nat> {
    let d = unsigned_digits(s);
    if d.len() > 0 && all_digits(d) && digits_value(d) <= max {
        Some(digits_value(d))
    } else {
        None
    }
}

/// The number, if it fits in `max`.
fn parse_up_to(s: &[char], max: u64) -> (r: Option<u64>)
    ensures
        match r {
            Some(v) => parsed_number(s@, max as nat) == Some(v as nat),
            None => parsed_number(s@, max as nat) is None,
        },
{
    let from: usize = if s.len() > 0 && s[0] == '+' {
        1
    } else {
        0
    };
    let d = slice_subrange(s, from, s.len());
    assert(d@ =~= unsigned_digits(s@));
    if d.len() == 0 {
        return None;
    }
    let mut v: u64 = 0;
    assert(d@.take(0) =~= Seq::<char>::empty());
    for i in 0..d.len()
        invariant
            d@ == unsigned_digits(s@),
            v == digits_value(d@.take(i as int)),
            v <= max,
            forall|j: int| 0 <= j < i ==> is_digit(#[trigger] d@[j]),
    {
        if !digit(d[i]) {
            return None;
        }
        proof {
            assert(d@.take(i + 1).drop_last() =~= d@.take(i as int));
            lemma_digits_value_grows(d@, i + 1);
        }
        let x: u64 = (d[i] as u8 - 48) as u64;
        if v > (u64::MAX - x) / 10 || v * 10 + x > max {
            return None;
        }
        v = v * 10 + x;
    }
    assert(d@.take(d@.len() as int) =~= d@);
    Some(v)
}

/// Reads an unsigned 64-bit number.
pub fn parse_u64(s: &[char]) -> (r: Option<u64>)
    ensures
        match r {
            Some(v) => parsed_number(s@, u64::MAX as nat) == Some(v as nat),
            None => parsed_number(s@, u64::MAX as nat) is None,
        },
{
    parse_up_to(s, u64::MAX)
}

/// Reads an unsigned machine-size number.
pub fn parse_usize(s: &[char]) -> (r: Option<usize>)
    ensures
        match r {
            Some(v) => parsed_number(s@, usize::MAX as nat) == Some(v as nat),
            None => parsed_number(s@, usize::MAX as nat) is None,
        },
{
    match parse_up_to(s, usize::MAX as u64) {
        Some(v) => Some(v as usize),
        None => None,
    }
}

/// The decimal text of a number reads back as that number.
pub proof fn decimal_reads_back(n: nat, max: nat)
    requires
        n <= max,
    ensures
        parsed_number(decimal(n), max) == Some(n),
{
    lemma_decimal(n);
    assert(is_digit(decimal(n)[0]));
    assert(unsigned_digits(decimal(n)) == decimal(n));
}

} // verus!
