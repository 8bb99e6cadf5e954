//! Text inside JSON strings.

use vstd::prelude::*;

use crate::encode::{code_point, lemma_code_point};
use crate::text::{chars_of, is_hex, lemma_rewritten_step, rewritten, string_of};

verus! {

/// The character of a hexadecimal digit.
pub open spec fn hex_digit(d: int) -> char {
    if d < 10 {
        (48 + d) as u8 as char
    } else {
        (97 + (d - 10)) as u8 as char
    }
}

/// What stands for a character in a JSON string: quotes and backslashes behind a backslash, control
/// characters by their number.
pub open spec fn json_char(c: char) -> Seq<char> {
    if c == '"' {
        seq!['\\', '"']
    } else if c == '\\' {
        seq!['\\', '\\']
    } else if ' ' > c {
        seq!['\\', 'u', '0', '0', hex_digit(c as int / 16), hex_digit(c as int % 16)]
    } else {
        seq![c]
    }
}

/// What stands for each character.
pub open spec fn json_chars() -> spec_fn(char) -> Seq<char> {
    |c: char| json_char(c)
}

/// The text as it stands in a JSON string.
pub open spec fn json_escaped(s: Seq<char>) -> Seq<char> {
    rewritten(s, json_chars())
}

fn hex_of(d: u8) -> (r: char)
    requires
        d < 16,
    ensures
        r == hex_digit(d as int),
{
    if d < 10 {
        (48 + d) as char
    } else {
        (97 + (d - 10)) as char
    }
}

/// The text as it stands in a JSON string.
pub fn json_escape(s: &str) -> (r: String)
    ensures
        r@ == json_escaped(s@),
{
    let cs = chars_of(s);
    let ghost f = json_chars();
    let mut out: Vec<char> = Vec::new();
    for i in 0..cs.len()
        invariant
            cs@ == s@,
            f == json_chars(),
            out@ == rewritten(s@.take(i as int), f),
    {
        proof {
            lemma_rewritten_step(s@, f, i as int);
        }
        let c = cs[i];
        let ghost before = out@;
        if c == '"' {
            out.push('\\');
            out.push('"');
        } else if c == '\\' {
            out.push('\\');
            out.push('\\');
        } else if ' ' > c {
            let n = code_point(c) as u8;
            out.push('\\');
            out.push('u');
            out.push('0');
            out.push('0');
            out.push(hex_of(n / 16));
            out.push(hex_of(n % 16));
        } else {
            out.push(c);
        }
        assert(out@ =~= before + json_char(c));
    }
    assert(s@.take(s@.len() as int) =~= s@);
    string_of(out.as_slice())
}

// ---------------------------------------------------------------------------
// Reading back
// ---------------------------------------------------------------------------

/// The value of a hexadecimal digit.
pub open spec fn hex_value(c: char) -> int {
    if '0' <= c <= '9' {
        c as int - 48
    } else if 'a' <= c <= 'f' {
        c as int - 97 + 10
    } else {
        c as int - 65 + 10
    }
}

/// The number of four hexadecimal digits.
pub open spec fn hex_number(d: Seq<char>) -> int {
    hex_value(d[0]) * 4096 + hex_value(d[1]) * 256 + hex_value(d[2]) * 16 + hex_value(d[3])
}

/// Four hexadecimal digits that stand for a character of their own.
pub open spec fn is_char_number(d: Seq<char>) -> bool {
    &&& d.len() == 4
    &&& forall|i: int| 0 <= i < 4 ==> is_hex(#[trigger] d[i])
    &&& !(0xD800 <= hex_number(d) <= 0xDFFF)
}

/// What a JSON string holds, from behind its opening quote to its closing one. `None` where no quote
/// closes it, where a control character stands in it as it is, and where a backslash is followed by
/// anything but a quote, a backslash, or `u` and the four digits of a character.
pub open spec fn json_read(t: Seq<char>) -> Option<Seq<char>>
    decreases t.len(),
{
    if t.len() == 0 || ' ' > t[0] {
        None
    } else if t[0] == '"' {
        Some(seq![])
    } else if t[0] != '\\' {
        json_with(t[0], json_read(t.skip(1)))
    } else if t.len() >= 2 && (t[1] == '"' || t[1] == '\\') {
        json_with(t[1], json_read(t.skip(2)))
    } else if t.len() >= 6 && t[1] == 'u' && is_char_number(t.subrange(2, 6)) {
        json_with(hex_number(t.subrange(2, 6)) as char, json_read(t.skip(6)))
    } else {
        None
    }
}

/// A character in front of what was read behind it.
pub open spec fn json_with(c: char, rest: Option<Seq<char>>) -> Option<Seq<char>> {
    match rest {
        Some(r) => Some(seq![c] + r),
        None => None,
    }
}

proof fn lemma_json_front(s: Seq<char>)
    requires
        s.len() > 0,
    ensures
        json_escaped(s) == json_char(s[0]) + json_escaped(s.drop_first()),
    decreases s.len(),
{
    let f = json_chars();
    let t = s.drop_first();
    if s.len() == 1 {
        assert(s.drop_last() =~= Seq::<char>::empty());
        assert(t =~= Seq::<char>::empty());
        assert(rewritten(s, f) =~= json_char(s[0]) + rewritten(t, f));
    } else {
        lemma_json_front(s.drop_last());
        assert(s.drop_last().drop_first() =~= t.drop_last());
        assert(rewritten(s, f) =~= json_char(s[0]) + rewritten(t, f));
    }
}

/// A text that was escaped reads back as that text, whatever stands behind the closing quote: no
/// character of it can end the string early.
pub proof fn json_reads_back(s: Seq<char>, behind: Seq<char>)
    ensures
        json_read(json_escaped(s) + seq!['"'] + behind) == Some(s),
    decreases s.len(),
{
    let t = json_escaped(s) + seq!['"'] + behind;
    if s.len() == 0 {
        assert(t =~= seq!['"'] + behind);
        assert(s =~= Seq::<char>::empty());
    } else {
        lemma_json_front(s);
        let u = s.drop_first();
        json_reads_back(u, behind);
        let rest = json_escaped(u) + seq!['"'] + behind;
        let c = s[0];
        assert(seq![c] + u =~= s);
        if c == '"' || c == '\\' {
            assert(t[0] == '\\' && t[1] == c);
            assert(t.skip(2) =~= rest);
        } else if ' ' > c {
            let n = c as int;
            lemma_code_point(c);
            assert(t[0] == '\\' && t[1] == 'u' && t[2] == '0' && t[3] == '0');
            assert(t[4] == hex_digit(n / 16) && t[5] == hex_digit(n % 16));
            assert(t.skip(6) =~= rest);
            let d = t.subrange(2, 6);
            assert(d[0] == '0' && d[1] == '0' && d[2] == hex_digit(n / 16) && d[3] == hex_digit(
                n % 16,
            ));
            assert(is_hex(hex_digit(n / 16)) && is_hex(hex_digit(n % 16)));
            assert(hex_value(hex_digit(n / 16)) == n / 16);
            assert(hex_value(hex_digit(n % 16)) == n % 16);
            assert(n / 16 * 16 + n % 16 == n);
        } else {
            assert(t[0] == c);
            assert(t.skip(1) =~= rest);
        }
    }
}

} // verus!
