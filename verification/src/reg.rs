//! Registry values as the system hands them over: bytes and a type.

use vstd::prelude::*;

use crate::text::{chars_of, string_of, trim_end_char, without_end};

verus! {

/// A string.
pub const REG_SZ: u32 = 1;

/// A string with references to environment variables.
pub const REG_EXPAND_SZ: u32 = 2;

/// A number of 32 bits.
pub const REG_DWORD: u32 = 4;

/// The 16-bit units of bytes, the low byte first; an odd byte at the end belongs to none.
pub open spec fn units_of(b: Seq<u8>) -> Seq<u16> {
    Seq::new(b.len() / 2, |i: int| (b[2 * i] as int + 256 * b[2 * i + 1] as int) as u16)
}

/// The unit is the first of a pair that stands for one character.
pub open spec fn is_high(u: u16) -> bool {
    0xD800 <= u < 0xDC00
}

/// The unit is the second of a pair that stands for one character.
pub open spec fn is_low(u: u16) -> bool {
    0xDC00 <= u < 0xE000
}

/// The text of 16-bit units. A pair stands for one character beyond U+FFFF; a unit that should be in a
/// pair and is in none becomes the replacement character.
pub open spec fn units_text(u: Seq<u16>) -> Seq<char>
    decreases u.len(),
{
    if u.len() == 0 {
        seq![]
    } else if u.len() >= 2 && is_high(u[0]) && is_low(u[1]) {
        seq![(0x10000 + (u[0] - 0xD800) * 0x400 + (u[1] - 0xDC00)) as char] + units_text(u.skip(2))
    } else if is_high(u[0]) || is_low(u[0]) {
        seq!['\u{FFFD}'] + units_text(u.skip(1))
    } else {
        seq![(u[0] as int) as char] + units_text(u.skip(1))
    }
}

/// `String::from_utf16_lossy` decodes UTF-16 and puts the replacement character U+FFFD in the place of
/// each surrogate that is not part of a pair. The contract says just that.
#[verifier::external_body]
fn lossy_text(units: &[u16]) -> (r: String)
    ensures
        r@ == units_text(units@),
{
    String::from_utf16_lossy(units)
}

/// The text of a string value: empty where there is no value, or one of another type. The zeros at
/// its end do not belong to it.
pub open spec fn value_text(found: bool, kind: u32, data: Seq<u8>) -> Seq<char> {
    if found && (kind == REG_SZ || kind == REG_EXPAND_SZ) {
        without_end(units_text(units_of(data)), '\0')
    } else {
        seq![]
    }
}

fn read_units(data: &[u8]) -> (r: Vec<u16>)
    ensures
        r@ == units_of(data@),
{
    let n: usize = data.len() / 2;
    let mut out: Vec<u16> = Vec::new();
    for i in 0..n
        invariant
            n == data@.len() / 2,
            data@.len() <= usize::MAX,
            out@ == units_of(data@).take(i as int),
    {
        let low = data[2 * i] as u16;
        let high = data[2 * i + 1] as u16;
        out.push(low + 256 * high);
        assert(out@ =~= units_of(data@).take(i + 1));
    }
    assert(units_of(data@).take(n as int) =~= units_of(data@));
    out
}

/// The text without the zeros at its end.
pub fn without_zeros(text: &str) -> (r: String)
    ensures
        r@ == without_end(text@, '\0'),
{
    let all = chars_of(text);
    string_of(trim_end_char(all.as_slice(), '\0'))
}

/// The text of a string value.
pub fn string_value(found: bool, kind: u32, data: &[u8]) -> (r: String)
    ensures
        r@ == value_text(found, kind, data@),
{
    if found && (kind == REG_SZ || kind == REG_EXPAND_SZ) {
        let text = lossy_text(read_units(data).as_slice());
        without_zeros(text.as_str())
    } else {
        let none = String::new();
        assert(none@ =~= Seq::<char>::empty());
        none
    }
}

/// The number of four bytes, the low byte first.
pub open spec fn number_of(b: Seq<u8>) -> int {
    b[0] as int + 256 * b[1] as int + 65_536 * b[2] as int + 16_777_216 * b[3] as int
}

/// The number of a value; `None` where there is none, or one of another type.
pub fn dword_value(found: bool, kind: u32, data: [u8; 4]) -> (r: Option<u32>)
    ensures
        match r {
            Some(n) => found && kind == REG_DWORD && n == number_of(data@),
            None => !(found && kind == REG_DWORD),
        },
{
    if found && kind == REG_DWORD {
        let a = data[0] as u32;
        let b = data[1] as u32;
        let c = data[2] as u32;
        let d = data[3] as u32;
        Some(a + 256 * b + 65_536 * c + 16_777_216 * d)
    } else {
        None
    }
}

/// The 16-bit units of a character.
pub open spec fn char_units(c: char) -> Seq<u16> {
    let n = c as int;
    if n < 0x10000 {
        seq![n as u16]
    } else {
        seq![
            (0xD800 + (n - 0x10000) / 0x400) as u16,
            (0xDC00 + (n - 0x10000) % 0x400) as u16,
        ]
    }
}

/// The 16-bit units of a text.
pub open spec fn text_units(s: Seq<char>) -> Seq<u16>
    decreases s.len(),
{
    if s.len() == 0 {
        seq![]
    } else {
        text_units(s.drop_last()) + char_units(s.last())
    }
}

/// The 16-bit units of a text with a zero behind them, as the system takes strings.
pub fn wide(s: &str) -> (r: Vec<u16>)
    ensures
        r@ == text_units(s@).push(0),
{
    let cs = chars_of(s);
    let mut out: Vec<u16> = Vec::new();
    for i in 0..cs.len()
        invariant
            cs@ == s@,
            out@ == text_units(s@.take(i as int)),
    {
        assert(s@.take(i + 1).drop_last() =~= s@.take(i as int));
        let n = crate::encode::code_point(cs[i]);
        let ghost before = out@;
        if n < 0x10000 {
            out.push(n as u16);
        } else {
            let x: u32 = n - 0x10000;
            out.push((0xD800 + x / 0x400) as u16);
            out.push((0xDC00 + x % 0x400) as u16);
        }
        assert(out@ =~= before + char_units(s@[i as int]));
    }
    assert(s@.take(s@.len() as int) =~= s@);
    out.push(0);
    out
}

// ---------------------------------------------------------------------------
// Laws
// ---------------------------------------------------------------------------

proof fn lemma_units_front(s: Seq<char>)
    requires
        s.len() > 0,
    ensures
        text_units(s) == char_units(s[0]) + text_units(s.drop_first()),
    decreases s.len(),
{
    let t = s.drop_first();
    if s.len() == 1 {
        assert(s.drop_last() =~= Seq::<char>::empty());
        assert(t =~= Seq::<char>::empty());
        assert(text_units(s) =~= char_units(s[0]) + text_units(t));
    } else {
        lemma_units_front(s.drop_last());
        assert(s.drop_last().drop_first() =~= t.drop_last());
        assert(text_units(s) =~= char_units(s[0]) + text_units(t));
    }
}

/// What is handed to the registry as 16-bit units reads back as the same text.
pub proof fn units_read_back(s: Seq<char>)
    ensures
        units_text(text_units(s)) == s,
    decreases s.len(),
{
    if s.len() == 0 {
        assert(s =~= Seq::<char>::empty());
    } else {
        let t = s.drop_first();
        let u = text_units(s);
        let n = s[0] as int;
        lemma_units_front(s);
        units_read_back(t);
        crate::encode::lemma_code_point(s[0]);
        if n < 0x10000 {
            assert(u[0] == n);
            assert(u.skip(1) =~= text_units(t));
        } else {
            let x = n - 0x10000;
            assert(0 <= x < 0x100000);
            assert(u[0] == 0xD800 + x / 0x400);
            assert(u[1] == 0xDC00 + x % 0x400);
            assert(u.skip(2) =~= text_units(t));
        }
        assert(seq![s[0]] + t =~= s);
    }
}

/// The bytes of 16-bit units, the low byte first.
pub open spec fn unit_bytes(u: Seq<u16>) -> Seq<u8> {
    Seq::new(
        2 * u.len(),
        |i: int|
            if i % 2 == 0 {
                (u[i / 2] as int % 256) as u8
            } else {
                (u[i / 2] as int / 256) as u8
            },
    )
}

/// A string value is read as the text it holds, plain or with variables in it, without the zero that ends
/// it; a value of any other type, and one that is not there, is no text.
pub proof fn string_values_read_back(s: Seq<char>, kind: u32, data: Seq<u8>)
    requires
        s.len() > 0 ==> s.last() != '\0',
    ensures
        value_text(true, 1, unit_bytes(text_units(s).push(0))) == s,
        value_text(true, 2, unit_bytes(text_units(s).push(0))) == s,
        kind != 1 && kind != 2 ==> value_text(true, kind, data).len() == 0,
        value_text(false, kind, data).len() == 0,
{
    let u = text_units(s).push(0);
    let b = unit_bytes(u);
    assert(units_of(b) =~= u) by {
        assert forall|i: int| 0 <= i < u.len() implies units_of(b)[i] == u[i] by {
            let n = u[i] as int;
            assert((2 * i) / 2 == i && (2 * i) % 2 == 0);
            assert((2 * i + 1) / 2 == i && (2 * i + 1) % 2 == 1);
            assert(b[2 * i] == (n % 256) as u8);
            assert(b[2 * i + 1] == (n / 256) as u8);
            assert(n == n % 256 + 256 * (n / 256));
        }
    }
    let t = s.push('\0');
    assert(t.drop_last() =~= s);
    assert(char_units('\0') =~= seq![0u16]);
    assert(text_units(t) =~= u);
    units_read_back(t);
    assert(without_end(t, '\0') == without_end(s, '\0'));
    assert(without_end(s, '\0') == s);
}

/// A number is read with its low byte first, from a value of its own type alone.
pub proof fn numbers_are_read_low_byte_first(n: u32, kind: u32, data: [u8; 4], r: Option<u32>)
    requires
        data@[0] == n % 256,
        data@[1] == n / 256 % 256,
        data@[2] == n / 65_536 % 256,
        data@[3] == n / 16_777_216,
        call_ensures(dword_value, (true, kind, data), r),
    ensures
        kind == 4 ==> r == Some(n),
        kind != 4 ==> r is None,
{
    assert(n == n % 256 + 256 * (n / 256 % 256) + 65_536 * (n / 65_536 % 256) + 16_777_216 * (n
        / 16_777_216));
}

} // verus!
