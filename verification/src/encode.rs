//! Encodings that carry a command to another process unharmed: UTF-16, Base64, and quoting.

use vstd::prelude::*;

use crate::text::{replaced, rewritten};

verus! {

// ---------------------------------------------------------------------------
// UTF-16, little endian
// ---------------------------------------------------------------------------

/// The two bytes of a 16-bit unit, the low one first.
pub open spec fn unit_bytes(u: int) -> Seq<u8> {
    seq![(u % 256) as u8, (u / 256) as u8]
}

/// The bytes of a character: one unit below U+10000, two surrogates from there on.
pub open spec fn utf16_char(c: char) -> Seq<u8> {
    let n = c as int;
    if n < 0x10000 {
        unit_bytes(n)
    } else {
        unit_bytes(0xD800 + (n - 0x10000) / 0x400) + unit_bytes(0xDC00 + (n - 0x10000) % 0x400)
    }
}

/// The bytes of a text in UTF-16, little endian.
pub open spec fn utf16(s: Seq<char>) -> Seq<u8>
    decreases s.len(),
{
    if s.len() == 0 {
        seq![]
    } else {
        utf16(s.drop_last()) + utf16_char(s.last())
    }
}

/// The number of a character.
pub fn code_point(c: char) -> (r: u32)
    ensures
        r == c as int,
        r <= 0x10FFFF,
{
    c as u32
}

pub proof fn lemma_code_point(c: char)
    ensures
        0 <= c as int <= 0x10FFFF,
        (c as int) < 0xD800 || 0xE000 <= (c as int),
{
}

fn push_unit(out: &mut Vec<u8>, u: u32)
    requires
        u < 0x10000,
    ensures
        final(out)@ == old(out)@ + unit_bytes(u as int),
{
    out.push((u % 256) as u8);
    out.push((u / 256) as u8);
    assert(out@ =~= old(out)@ + unit_bytes(u as int));
}

/// The bytes of a text in UTF-16, little endian.
pub fn utf16_bytes(s: &[char]) -> (r: Vec<u8>)
    ensures
        r@ == utf16(s@),
{
    let mut out: Vec<u8> = Vec::new();
    for i in 0..s.len()
        invariant
            out@ == utf16(s@.take(i as int)),
    {
        assert(s@.take(i + 1).drop_last() =~= s@.take(i as int));
        let n = code_point(s[i]);
        if n < 0x10000 {
            push_unit(&mut out, n);
        } else {
            let ghost before = out@;
            let x: u32 = n - 0x10000;
            push_unit(&mut out, 0xD800 + x / 0x400);
            push_unit(&mut out, 0xDC00 + x % 0x400);
            assert(out@ =~= before + (unit_bytes(0xD800 + x as int / 0x400) + unit_bytes(
                0xDC00 + x as int % 0x400,
            )));
        }
    }
    assert(s@.take(s@.len() as int) =~= s@);
    out
}

/// The unit that two bytes stand for.
pub open spec fn unit_at(b: Seq<u8>, i: int) -> int {
    b[i] as int + 256 * b[i + 1] as int
}

/// The text that UTF-16 bytes stand for; `None` where they are no text.
pub open spec fn utf16_read(b: Seq<u8>) -> Option<Seq<char>>
    decreases b.len(),
{
    if b.len() == 0 {
        Some(seq![])
    } else if b.len() < 2 {
        None
    } else {
        let u = unit_at(b, 0);
        if u < 0xD800 || 0xE000 <= u {
            match utf16_read(b.skip(2)) {
                Some(rest) => Some(seq![u as char] + rest),
                None => None,
            }
        } else if u < 0xDC00 && b.len() >= 4 && 0xDC00 <= unit_at(b, 2) < 0xE000 {
            match utf16_read(b.skip(4)) {
                Some(rest) => Some(
                    seq![(0x10000 + (u - 0xD800) * 0x400 + (unit_at(b, 2) - 0xDC00)) as char]
                        + rest,
                ),
                None => None,
            }
        } else {
            None
        }
    }
}

proof fn lemma_utf16_front(s: Seq<char>)
    requires
        s.len() > 0,
    ensures
        utf16(s) == utf16_char(s[0]) + utf16(s.drop_first()),
    decreases s.len(),
{
    let t = s.drop_first();
    if s.len() == 1 {
        assert(s.drop_last() =~= Seq::<char>::empty());
        assert(t =~= Seq::<char>::empty());
        assert(utf16(s) =~= utf16_char(s[0]) + utf16(t));
    } else {
        lemma_utf16_front(s.drop_last());
        assert(s.drop_last().drop_first() =~= t.drop_last());
        assert(utf16(s) =~= utf16_char(s[0]) + utf16(t));
    }
}

/// What UTF-16 makes of a text reads back as that text.
pub proof fn utf16_reads_back(s: Seq<char>)
    ensures
        utf16_read(utf16(s)) == Some(s),
    decreases s.len(),
{
    if s.len() == 0 {
        assert(s =~= Seq::<char>::empty());
    } else {
        lemma_utf16_front(s);
        let t = s.drop_first();
        utf16_reads_back(t);
        let b = utf16(s);
        let n = s[0] as int;
        lemma_code_point(s[0]);
        if n < 0x10000 {
            assert(b.skip(2) =~= utf16(t));
            assert(unit_at(b, 0) == n);
        } else {
            let x = n - 0x10000;
            assert(0 <= x < 0x100000);
            assert(b.skip(4) =~= utf16(t));
            assert(unit_at(b, 0) == 0xD800 + x / 0x400);
            assert(unit_at(b, 2) == 0xDC00 + x % 0x400);
        }
        assert(seq![s[0]] + t =~= s);
    }
}

// ---------------------------------------------------------------------------
// Base64
// ---------------------------------------------------------------------------

/// The character of a Base64 digit.
pub open spec fn digit64(d: int) -> char {
    if d < 26 {
        (65 + d) as u8 as char
    } else if d < 52 {
        (97 + (d - 26)) as u8 as char
    } else if d < 62 {
        (48 + (d - 52)) as u8 as char
    } else if d == 62 {
        '+'
    } else {
        '/'
    }
}

/// Three bytes as one number of 24 bits.
pub open spec fn triple(a: int, b: int, c: int) -> int {
    a * 65536 + b * 256 + c
}

/// The four characters of up to three bytes; what is missing is padded with `=`.
#[verifier::opaque]
pub open spec fn quad(chunk: Seq<u8>) -> Seq<char> {
    let a = chunk[0] as int;
    let b = if chunk.len() > 1 {
        chunk[1] as int
    } else {
        0
    };
    let c = if chunk.len() > 2 {
        chunk[2] as int
    } else {
        0
    };
    let n = triple(a, b, c);
    seq![
        digit64(n / 262144),
        digit64(n / 4096 % 64),
        if chunk.len() > 1 {
            digit64(n / 64 % 64)
        } else {
            '='
        },
        if chunk.len() > 2 {
            digit64(n % 64)
        } else {
            '='
        },
    ]
}

/// The Base64 text of bytes: four characters for every three.
pub open spec fn base64(b: Seq<u8>) -> Seq<char>
    decreases b.len(),
{
    if b.len() == 0 {
        seq![]
    } else if b.len() <= 3 {
        quad(b)
    } else {
        quad(b.take(3)) + base64(b.skip(3))
    }
}

fn digit64_of(d: u32) -> (r: char)
    requires
        d < 64,
    ensures
        r == digit64(d as int),
{
    if d < 26 {
        (65 + d) as u8 as char
    } else if d < 52 {
        (97 + (d - 26)) as u8 as char
    } else if d < 62 {
        (48 + (d - 52)) as u8 as char
    } else if d == 62 {
        '+'
    } else {
        '/'
    }
}

/// The Base64 text of bytes.
pub fn base64_text(bytes: &[u8]) -> (r: Vec<char>)
    ensures
        r@ == base64(bytes@),
{
    let mut out: Vec<char> = Vec::new();
    let mut i: usize = 0;
    let ghost all = bytes@;
    assert(all.skip(0) =~= all);
    assert(out@ + base64(all) =~= base64(all));
    while i < bytes.len()
        invariant
            i <= bytes@.len(),
            all == bytes@,
            base64(all) == out@ + base64(all.skip(i as int)),
        decreases bytes@.len() - i,
    {
        let left: usize = bytes.len() - i;
        let a = bytes[i] as u32;
        let b = if left > 1 {
            bytes[i + 1] as u32
        } else {
            0
        };
        let c = if left > 2 {
            bytes[i + 2] as u32
        } else {
            0
        };
        let n: u32 = a * 65536 + b * 256 + c;
        let ghost before = out@;
        let ghost rest = all.skip(i as int);
        let ghost chunk = if left >= 3 {
            rest.take(3)
        } else {
            rest
        };
        out.push(digit64_of(n / 262144));
        out.push(digit64_of(n / 4096 % 64));
        out.push(
            if left > 1 {
                digit64_of(n / 64 % 64)
            } else {
                '='
            },
        );
        out.push(
            if left > 2 {
                digit64_of(n % 64)
            } else {
                '='
            },
        );
        assert(out@ =~= before + quad(chunk)) by {
            reveal(quad);
        }
        if left > 3 {
            assert(rest.skip(3) =~= all.skip(i + 3));
            assert(base64(all) =~= out@ + base64(all.skip(i + 3)));
            i = i + 3;
        } else {
            assert(chunk =~= rest);
            assert(base64(all) =~= out@);
            return out;
        }
    }
    assert(all.skip(i as int) =~= Seq::<u8>::empty());
    assert(out@ + Seq::<char>::empty() =~= out@);
    out
}

/// The value of a Base64 digit.
pub open spec fn value64(c: char) -> Option<int> {
    if 'A' <= c <= 'Z' {
        Some(c as int - 65)
    } else if 'a' <= c <= 'z' {
        Some(c as int - 97 + 26)
    } else if '0' <= c <= '9' {
        Some(c as int - 48 + 52)
    } else if c == '+' {
        Some(62)
    } else if c == '/' {
        Some(63)
    } else {
        None
    }
}

/// The bytes of four characters; `None` where they are no Base64.
#[verifier::opaque]
pub open spec fn quad_read(q: Seq<char>) -> Option<Seq<u8>> {
    match (value64(q[0]), value64(q[1])) {
        (Some(w), Some(x)) => if q[2] == '=' && q[3] == '=' {
            Some(seq![((w * 64 + x) / 16) as u8])
        } else {
            match value64(q[2]) {
                Some(y) => if q[3] == '=' {
                    let n = (w * 64 + x) * 64 + y;
                    Some(seq![(n / 1024) as u8, (n / 4 % 256) as u8])
                } else {
                    match value64(q[3]) {
                        Some(z) => {
                            let n = ((w * 64 + x) * 64 + y) * 64 + z;
                            Some(seq![(n / 65536) as u8, (n / 256 % 256) as u8, (n % 256) as u8])
                        },
                        None => None,
                    }
                },
                None => None,
            }
        },
        _ => None,
    }
}

/// The bytes that a Base64 text stands for; `None` where it is none.
pub open spec fn base64_read(t: Seq<char>) -> Option<Seq<u8>>
    decreases t.len(),
{
    if t.len() == 0 {
        Some(seq![])
    } else if t.len() < 4 {
        None
    } else {
        match (quad_read(t.take(4)), base64_read(t.skip(4))) {
            (Some(a), Some(b)) => Some(a + b),
            _ => None,
        }
    }
}

proof fn lemma_digit64(d: int)
    requires
        0 <= d < 64,
    ensures
        value64(digit64(d)) == Some(d),
        digit64(d) != '=',
{
}

proof fn lemma_sixes(n: int)
    requires
        0 <= n < 16777216,
    ensures
        0 <= n / 262144 < 64,
        0 <= n / 4096 % 64 < 64,
        0 <= n / 64 % 64 < 64,
        (n / 262144) * 64 + n / 4096 % 64 == n / 4096,
        (n / 4096) * 64 + n / 64 % 64 == n / 64,
        (n / 64) * 64 + n % 64 == n,
{
    assert(n / 4096 / 64 == n / 262144);
    assert(n / 64 / 64 == n / 4096);
}

proof fn lemma_bytes(a: int, b: int, c: int)
    requires
        0 <= a < 256,
        0 <= b < 256,
        0 <= c < 256,
    ensures
        0 <= triple(a, b, c) < 16777216,
        triple(a, b, c) / 65536 == a,
        triple(a, b, c) / 256 % 256 == b,
        triple(a, b, c) % 256 == c,
        c == 0 ==> triple(a, b, c) / 64 == a * 1024 + b * 4,
        c == 0 && b == 0 ==> triple(a, b, c) / 4096 == a * 16,
{
    let n = triple(a, b, c);
    assert(n / 256 == a * 256 + b);
}

proof fn lemma_quad(chunk: Seq<u8>)
    requires
        1 <= chunk.len() <= 3,
    ensures
        quad(chunk).len() == 4,
        quad_read(quad(chunk)) == Some(chunk),
{
    reveal(quad);
    reveal(quad_read);
    let a = chunk[0] as int;
    let b = if chunk.len() > 1 {
        chunk[1] as int
    } else {
        0
    };
    let c = if chunk.len() > 2 {
        chunk[2] as int
    } else {
        0
    };
    let n = triple(a, b, c);
    lemma_bytes(a, b, c);
    lemma_sixes(n);
    let (w, x, y, z) = (n / 262144, n / 4096 % 64, n / 64 % 64, n % 64);
    lemma_digit64(w);
    lemma_digit64(x);
    lemma_digit64(y);
    lemma_digit64(z);
    let q = quad(chunk);
    assert(q[0] == digit64(w) && q[1] == digit64(x));
    if chunk.len() == 1 {
        assert((w * 64 + x) / 16 == a);
        assert(quad_read(q) == Some(seq![a as u8]));
        assert(seq![a as u8] =~= chunk);
    } else if chunk.len() == 2 {
        let m = (w * 64 + x) * 64 + y;
        assert(m == a * 1024 + b * 4);
        assert(m / 1024 == a && m / 4 % 256 == b);
        assert(quad_read(q) == Some(seq![a as u8, b as u8]));
        assert(seq![a as u8, b as u8] =~= chunk);
    } else {
        assert(((w * 64 + x) * 64 + y) * 64 + z == n);
        assert(quad_read(q) == Some(seq![a as u8, b as u8, c as u8]));
        assert(seq![a as u8, b as u8, c as u8] =~= chunk);
    }
}

/// What Base64 makes of bytes reads back as those bytes.
pub proof fn base64_reads_back(b: Seq<u8>)
    ensures
        base64_read(base64(b)) == Some(b),
    decreases b.len(),
{
    if b.len() == 0 {
        assert(b =~= Seq::<u8>::empty());
    } else if b.len() <= 3 {
        lemma_quad(b);
        let t = base64(b);
        assert(t.take(4) =~= t);
        assert(t.skip(4) =~= Seq::<char>::empty());
        assert(base64_read(Seq::<char>::empty()) == Some(Seq::<u8>::empty()));
        assert(b + Seq::<u8>::empty() =~= b);
    } else {
        lemma_quad(b.take(3));
        base64_reads_back(b.skip(3));
        let t = base64(b);
        assert(t.take(4) =~= quad(b.take(3)));
        assert(t.skip(4) =~= base64(b.skip(3)));
        assert(b.take(3) + b.skip(3) =~= b);
    }
}

// ---------------------------------------------------------------------------
// Single quotes
// ---------------------------------------------------------------------------

/// The text with every single quote doubled, as it stands between single quotes.
pub open spec fn doubled(s: Seq<char>) -> Seq<char> {
    replaced(s, '\'', seq!['\'', '\''])
}

/// What stands between single quotes at the front of a text, doubled quotes read as one; the quote
/// that ends it is the first that is not doubled. `None` where none ends it.
pub open spec fn quoted_read(t: Seq<char>) -> Option<Seq<char>>
    decreases t.len(),
{
    if t.len() == 0 {
        None
    } else if t[0] != '\'' {
        match quoted_read(t.drop_first()) {
            Some(rest) => Some(seq![t[0]] + rest),
            None => None,
        }
    } else if t.len() > 1 && t[1] == '\'' {
        match quoted_read(t.skip(2)) {
            Some(rest) => Some(seq!['\''] + rest),
            None => None,
        }
    } else {
        Some(seq![])
    }
}

proof fn lemma_rewritten_front(s: Seq<char>, f: spec_fn(char) -> Seq<char>)
    requires
        s.len() > 0,
    ensures
        rewritten(s, f) == f(s[0]) + rewritten(s.drop_first(), f),
    decreases s.len(),
{
    let t = s.drop_first();
    if s.len() == 1 {
        assert(s.drop_last() =~= Seq::<char>::empty());
        assert(t =~= Seq::<char>::empty());
        assert(rewritten(s, f) =~= f(s[0]) + rewritten(t, f));
    } else {
        lemma_rewritten_front(s.drop_last(), f);
        assert(s.drop_last().drop_first() =~= t.drop_last());
        assert(rewritten(s, f) =~= f(s[0]) + rewritten(t, f));
    }
}

/// Between single quotes, a text with its quotes doubled reads back as that text, whatever stands
/// behind the closing quote, as long as that is no further quote.
pub proof fn quoting_reads_back(s: Seq<char>, behind: Seq<char>)
    requires
        behind.len() == 0 || behind[0] != '\'',
    ensures
        quoted_read(doubled(s) + seq!['\''] + behind) == Some(s),
    decreases s.len(),
{
    let f = crate::text::swap_for('\'', seq!['\'', '\'']);
    let t = doubled(s) + seq!['\''] + behind;
    if s.len() == 0 {
        assert(s =~= Seq::<char>::empty());
        assert(t =~= seq!['\''] + behind);
    } else {
        lemma_rewritten_front(s, f);
        let u = s.drop_first();
        quoting_reads_back(u, behind);
        assert(seq![s[0]] + u =~= s);
        if s[0] == '\'' {
            assert(t[0] == '\'' && t[1] == '\'');
            assert(t.skip(2) =~= doubled(u) + seq!['\''] + behind);
        } else {
            assert(t[0] == s[0]);
            assert(t.drop_first() =~= doubled(u) + seq!['\''] + behind);
        }
    }
}

} // verus!
