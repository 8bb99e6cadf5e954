//! Terminal output: colours, sizes and counts as text, and text cut or padded to display cells.

use vstd::prelude::*;

use crate::number::{decimal, decimal_chars, digit_char, lemma_decimal, repeat, repeated};
use crate::text::{
    all_digits, append, ascii_lower, ascii_lower_char, chars_of, is_digit, is_space,
    lemma_nothing_to_trim, lemma_run_len, lower_ascii, same_str, string_of, trim_str, trimmed,
};
use vstd::slice::slice_subrange;
use vstd::utf8::encode_utf8;

verus! {

// ---------------------------------------------------------------------------
// Colours
// ---------------------------------------------------------------------------

/// Whether text is painted with terminal escape sequences.
#[derive(Clone, Copy, PartialEq, Eq, Debug)]
pub struct Style {
    pub on: bool,
}

/// The text inside the escape sequence of a code, or as it is when painting is off.
pub open spec fn painted(on: bool, code: Seq<char>, s: Seq<char>) -> Seq<char> {
    if on {
        "\x1b["@ + code + "m"@ + s + "\x1b[0m"@
    } else {
        s
    }
}

impl Style {
    /// Colours are on when the user has not switched them off, neither for this run nor in the
    /// settings, and the terminal takes them.
    pub fn auto(switched_off: bool, wanted: bool, terminal: bool) -> (r: Style)
        ensures
            r.on == (!switched_off && wanted && terminal),
    {
        Style { on: !switched_off && wanted && terminal }
    }

    fn wrap(&self, code: &str, s: &str) -> (r: String)
        ensures
            r@ == painted(self.on, code@, s@),
    {
        if self.on {
            let mut out = "\x1b[".to_string();
            out.append(code);
            out.append("m");
            out.append(s);
            out.append("\x1b[0m");
            out
        } else {
            s.to_string()
        }
    }

    pub fn bold(&self, s: &str) -> (r: String)
        ensures
            r@ == painted(self.on, "1"@, s@),
    {
        self.wrap("1", s)
    }

    pub fn dim(&self, s: &str) -> (r: String)
        ensures
            r@ == painted(self.on, "2"@, s@),
    {
        self.wrap("2", s)
    }

    pub fn cyan(&self, s: &str) -> (r: String)
        ensures
            r@ == painted(self.on, "36"@, s@),
    {
        self.wrap("36", s)
    }

    pub fn green(&self, s: &str) -> (r: String)
        ensures
            r@ == painted(self.on, "32"@, s@),
    {
        self.wrap("32", s)
    }

    pub fn yellow(&self, s: &str) -> (r: String)
        ensures
            r@ == painted(self.on, "33"@, s@),
    {
        self.wrap("33", s)
    }

    /// Reverse video for cursor rows; plain text when colours are off.
    pub fn invert(&self, s: &str) -> (r: String)
        ensures
            r@ == painted(self.on, "7"@, s@),
    {
        self.wrap("7", s)
    }
}

// ---------------------------------------------------------------------------
// Sizes and counts
// ---------------------------------------------------------------------------

/// The quotient rounded to the nearest whole number, halves to the even one.
pub open spec fn rounded_div(a: nat, b: nat) -> nat {
    let q = a / b;
    let r = a % b;
    if 2 * r > b || (2 * r == b && q % 2 == 1) {
        q + 1
    } else {
        q
    }
}

/// The distance between neighbouring double-precision numbers around `n`, where it is at least one.
pub open spec fn spacing(n: nat) -> nat
    decreases n,
{
    if n < 0x20_0000_0000_0000 {
        1
    } else {
        2 * spacing(n / 2)
    }
}

/// The double-precision number nearest to `n`.
pub open spec fn nearest_double(n: nat) -> nat {
    rounded_div(n, spacing(n)) * spacing(n)
}

/// How many bytes the unit of a size holds: the largest of KB, MB, GB and TB that is no bigger.
pub open spec fn unit_bytes(n: nat) -> nat {
    if n < 0x10_0000 {
        0x400
    } else if n < 0x4000_0000 {
        0x10_0000
    } else if n < 0x100_0000_0000 {
        0x4000_0000
    } else {
        0x100_0000_0000
    }
}

/// The name of that unit.
pub open spec fn unit_name(n: nat) -> Seq<char> {
    if n < 0x10_0000 {
        " KB"@
    } else if n < 0x4000_0000 {
        " MB"@
    } else if n < 0x100_0000_0000 {
        " GB"@
    } else {
        " TB"@
    }
}

/// A size for people: whole bytes below 1024, else one decimal in the unit that fits.
pub open spec fn size_text(bytes: nat) -> Seq<char> {
    if bytes < 1024 {
        decimal(bytes) + " B"@
    } else {
        let v = nearest_double(bytes);
        let tenths = rounded_div(v * 10, unit_bytes(v));
        decimal(tenths / 10) + seq!['.', digit_char(tenths % 10)] + unit_name(v)
    }
}

fn div_rounded(a: u128, b: u128) -> (r: u128)
    requires
        0 < b <= 0x1_0000_0000_0000_0000,
        a <= 0xFFFF_FFFF_FFFF_FFFF_FFFF,
    ensures
        r == rounded_div(a as nat, b as nat),
{
    let q = a / b;
    let r = a % b;
    assert(q <= a) by (nonlinear_arith)
        requires
            q == a / b,
            b > 0,
    ;
    if 2 * r > b || (2 * r == b && q % 2 == 1) {
        q + 1
    } else {
        q
    }
}

proof fn lemma_spacing(n: nat)
    requires
        n <= 0xFFFF_FFFF_FFFF_FFFF,
    ensures
        1 <= spacing(n) <= 0x800,
        n >= 0x20_0000_0000_0000 ==> spacing(n) * 0x10_0000_0000_0000 <= n < spacing(n)
            * 0x20_0000_0000_0000,
        n < 0x20_0000_0000_0000 ==> spacing(n) == 1,
{
    reveal_with_fuel(spacing, 13);
}

fn double_spacing(n: u64) -> (r: u64)
    ensures
        r == spacing(n as nat),
        1 <= r <= 0x800,
{
    let mut step: u64 = 1;
    let mut rest: u64 = n;
    proof {
        lemma_spacing(n as nat);
    }
    while rest >= 0x20_0000_0000_0000
        invariant
            spacing(n as nat) == step * spacing(rest as nat),
            1 <= spacing(n as nat) <= 0x800,
            step >= 1,
        decreases rest,
    {
        assert(spacing(rest as nat) == 2 * spacing((rest / 2) as nat));
        assert(step * (2 * spacing((rest / 2) as nat)) == (step * 2) * spacing((rest / 2) as nat))
            by (nonlinear_arith);
        proof {
            lemma_spacing((rest / 2) as nat);
        }
        assert(step * 2 <= 0x800) by (nonlinear_arith)
            requires
                (step * 2) * spacing((rest / 2) as nat) <= 0x800,
                spacing((rest / 2) as nat) >= 1,
        ;
        step = step * 2;
        rest = rest / 2;
    }
    assert(spacing(rest as nat) == 1);
    assert(step * spacing(rest as nat) == step) by (nonlinear_arith)
        requires
            spacing(rest as nat) == 1,
    ;
    step
}

/// A size for people, such as `2.0 KB`.
pub fn fmt_size(bytes: u64) -> (r: String)
    ensures
        r@ == size_text(bytes as nat),
{
    if bytes < 1024 {
        let mut out = decimal_chars(bytes);
        append(&mut out, chars_of(" B").as_slice());
        return string_of(out.as_slice());
    }
    let step = double_spacing(bytes) as u128;
    let k = div_rounded(bytes as u128, step);
    proof {
        lemma_spacing(bytes as nat);
        assert(k <= bytes + 1) by (nonlinear_arith)
            requires
                k <= bytes as nat / step as nat + 1,
                step >= 1,
        ;
        assert(k * step <= 0x1_0000_0000_0000_0800) by (nonlinear_arith)
            requires
                k <= bytes as nat / step as nat + 1,
                1 <= step <= 0x800,
                bytes <= 0xFFFF_FFFF_FFFF_FFFF,
        ;
    }
    let v: u128 = k * step;
    let (unit, name): (u128, &str) = if v < 0x10_0000 {
        (0x400, " KB")
    } else if v < 0x4000_0000 {
        (0x10_0000, " MB")
    } else if v < 0x100_0000_0000 {
        (0x4000_0000, " GB")
    } else {
        (0x100_0000_0000, " TB")
    };
    let tenths = div_rounded(v * 10, unit);
    assert(tenths / 10 <= u64::MAX) by (nonlinear_arith)
        requires
            tenths <= (v * 10) as nat / unit as nat + 1,
            v <= 0x1_0000_0000_0000_0800,
            unit >= 0x400,
    ;
    let mut out = decimal_chars((tenths / 10) as u64);
    let ghost whole = out@;
    out.push('.');
    out.push((48 + (tenths % 10) as u8) as char);
    assert(out@ =~= whole + seq!['.', digit_char((tenths % 10) as nat)]);
    append(&mut out, chars_of(name).as_slice());
    string_of(out.as_slice())
}

/// Digits with a comma before each group of three, counted from the end.
pub open spec fn grouped(s: Seq<char>) -> Seq<char>
    decreases s.len(),
{
    if s.len() <= 3 {
        s
    } else {
        grouped(s.take(s.len() - 3)) + seq![','] + s.skip(s.len() - 3)
    }
}

fn group(s: &[char]) -> (r: Vec<char>)
    ensures
        r@ == grouped(s@),
    decreases s@.len(),
{
    if s.len() <= 3 {
        crate::text::copy(s)
    } else {
        let cut: usize = s.len() - 3;
        let head = slice_subrange(s, 0, cut);
        let tail = slice_subrange(s, cut, s.len());
        assert(head@ =~= s@.take(cut as int));
        assert(tail@ =~= s@.skip(cut as int));
        let mut out = group(head);
        let ghost g = out@;
        out.push(',');
        assert(out@ =~= g + seq![',']);
        append(&mut out, tail);
        out
    }
}

/// A count with thousands separators, such as `1,234,567`.
pub fn fmt_count(n: u64) -> (r: String)
    ensures
        r@ == grouped(decimal(n as nat)),
{
    string_of(group(decimal_chars(n).as_slice()).as_slice())
}

// ---------------------------------------------------------------------------
// Display cells
// ---------------------------------------------------------------------------

/// Characters that take two cells of a terminal: Hangul, CJK, kana and fullwidth forms.
pub open spec fn is_wide(c: char) -> bool {
    ||| '\u{1100}' <= c <= '\u{115f}'
    ||| '\u{2e80}' <= c <= '\u{a4cf}'
    ||| '\u{ac00}' <= c <= '\u{d7a3}'
    ||| '\u{f900}' <= c <= '\u{faff}'
    ||| '\u{fe30}' <= c <= '\u{fe4f}'
    ||| '\u{ff00}' <= c <= '\u{ff60}'
    ||| '\u{ffe0}' <= c <= '\u{ffe6}'
    ||| '\u{20000}' <= c <= '\u{3fffd}'
}

/// The cells that one character takes.
pub open spec fn cells(c: char) -> nat {
    if is_wide(c) {
        2
    } else {
        1
    }
}

/// The cells that a text takes.
pub open spec fn width_of(s: Seq<char>) -> nat
    decreases s.len(),
{
    if s.len() == 0 {
        0
    } else {
        width_of(s.drop_last()) + cells(s.last())
    }
}

fn char_width(c: char) -> (r: usize)
    ensures
        r == cells(c),
{
    let wide = ('\u{1100}' <= c && c <= '\u{115f}') || ('\u{2e80}' <= c && c <= '\u{a4cf}') || (
    '\u{ac00}' <= c && c <= '\u{d7a3}') || ('\u{f900}' <= c && c <= '\u{faff}') || ('\u{fe30}' <= c
        && c <= '\u{fe4f}') || ('\u{ff00}' <= c && c <= '\u{ff60}') || ('\u{ffe0}' <= c && c
        <= '\u{ffe6}') || ('\u{20000}' <= c && c <= '\u{3fffd}');
    if wide {
        2
    } else {
        1
    }
}

proof fn lemma_width_first(s: Seq<char>)
    requires
        s.len() > 0,
    ensures
        width_of(s) == cells(s[0]) + width_of(s.drop_first()),
    decreases s.len(),
{
    if s.len() == 1 {
        assert(s.drop_first() =~= s.drop_last());
    } else {
        lemma_width_first(s.drop_last());
        assert(s.drop_last().drop_first() =~= s.drop_first().drop_last());
    }
}

/// The width of two texts one behind the other.
pub proof fn lemma_width_add(a: Seq<char>, b: Seq<char>)
    ensures
        width_of(a + b) == width_of(a) + width_of(b),
    decreases b.len(),
{
    if b.len() == 0 {
        assert(a + b =~= a);
    } else {
        lemma_width_add(a, b.drop_last());
        assert((a + b).drop_last() =~= a + b.drop_last());
    }
}

/// A character takes no more cells than bytes.
proof fn lemma_width_bytes(s: Seq<char>)
    ensures
        width_of(s) <= encode_utf8(s).len(),
    decreases s.len(),
{
    if s.len() > 0 {
        lemma_width_first(s);
        lemma_width_bytes(s.drop_first());
    }
}

proof fn lemma_width_take(s: Seq<char>, k: int)
    requires
        0 <= k <= s.len(),
    ensures
        width_of(s.take(k)) <= width_of(s),
{
    assert(s =~= s.take(k) + s.skip(k));
    lemma_width_add(s.take(k), s.skip(k));
}

/// The cells that a string takes on a terminal.
pub fn display_width(s: &str) -> (r: usize)
    ensures
        r == width_of(s@),
{
    let bytes: usize = s.as_bytes().len();
    let cs = chars_of(s);
    proof {
        lemma_width_bytes(s@);
    }
    let mut total: usize = 0;
    for i in 0..cs.len()
        invariant
            cs@ == s@,
            width_of(s@) <= bytes,
            total == width_of(s@.take(i as int)),
    {
        proof {
            lemma_width_take(s@, i + 1);
            assert(s@.take(i + 1).drop_last() =~= s@.take(i as int));
        }
        total = total + char_width(cs[i]);
    }
    assert(s@.take(s@.len() as int) =~= s@);
    total
}

/// The front of the text that fits into `room` cells: characters are taken while they fit.
pub open spec fn fitting(s: Seq<char>, room: int) -> Seq<char>
    decreases s.len(),
{
    if s.len() == 0 || cells(s[0]) > room {
        seq![]
    } else {
        seq![s[0]] + fitting(s.drop_first(), room - cells(s[0]))
    }
}

/// The text if it fits into `max` cells, else its front with an ellipsis in the last cell; without a
/// cell there is no room for the ellipsis either.
pub open spec fn truncated(s: Seq<char>, max: int) -> Seq<char> {
    if width_of(s) <= max {
        s
    } else if max <= 0 {
        seq![]
    } else {
        fitting(s, max - 1) + seq!['…']
    }
}

/// At most `max` display cells, with `…` at the end when cut.
pub fn truncate_width(s: &str, max: usize) -> (r: String)
    ensures
        r@ == truncated(s@, max as int),
        width_of(r@) <= max,
{
    proof {
        truncated_text_fits(s@, max as int);
    }
    if display_width(s) <= max {
        return s.to_string();
    }
    if max == 0 {
        let none = String::new();
        assert(none@ =~= Seq::<char>::empty());
        return none;
    }
    let cs = chars_of(s);
    let mut room: usize = max - 1;
    let mut out: Vec<char> = Vec::new();
    let mut i: usize = 0;
    assert(s@.skip(0) =~= s@);
    assert(out@ + fitting(s@, room as int) =~= fitting(s@, room as int));
    while i < cs.len() && char_width(cs[i]) <= room
        invariant
            cs@ == s@,
            0 <= i <= s@.len(),
            fitting(s@, max - 1) == out@ + fitting(s@.skip(i as int), room as int),
        decreases s@.len() - i,
    {
        let ghost before = out@;
        let ghost rest = s@.skip(i as int);
        room = room - char_width(cs[i]);
        out.push(cs[i]);
        assert(rest.drop_first() =~= s@.skip(i + 1));
        assert(before + (seq![rest[0]] + fitting(s@.skip(i + 1), room as int)) =~= out@ + fitting(
            s@.skip(i + 1),
            room as int,
        ));
        i = i + 1;
    }
    assert(fitting(s@, max - 1) =~= out@);
    let ghost kept = out@;
    out.push('…');
    assert(out@ =~= kept + seq!['…']);
    string_of(out.as_slice())
}

/// The text with spaces behind it, up to `width` cells; a wider text stays as it is.
pub open spec fn padded(s: Seq<char>, width: int) -> Seq<char> {
    s + repeated(' ', width - width_of(s))
}

/// Left-aligns to `width` display cells.
pub fn pad_to_width(s: &str, width: usize) -> (r: String)
    ensures
        r@ == padded(s@, width as int),
{
    let w = display_width(s);
    if w >= width {
        assert(padded(s@, width as int) =~= s@);
        return s.to_string();
    }
    let mut out = chars_of(s);
    append(&mut out, repeat(' ', width - w).as_slice());
    string_of(out.as_slice())
}

// ---------------------------------------------------------------------------
// Answers
// ---------------------------------------------------------------------------

/// An answer that means yes: `y` or `yes`, in any case, with white space around it.
pub open spec fn means_yes(line: Seq<char>) -> bool {
    let answer = ascii_lower(trimmed(line));
    answer == "y"@ || answer == "yes"@
}

/// Whether an answer to a `[y/N]` prompt is a yes; anything but `y` and `yes` is a no.
pub fn is_yes(line: &str) -> (r: bool)
    ensures
        r == means_yes(line@),
{
    let answer = lower_ascii(trim_str(line).as_slice());
    same_str(answer.as_slice(), "y") || same_str(answer.as_slice(), "yes")
}

// ---------------------------------------------------------------------------
// Laws
// ---------------------------------------------------------------------------

pub proof fn lemma_fitting(s: Seq<char>, room: int)
    ensures
        fitting(s, room).len() <= s.len(),
        fitting(s, room) == s.take(fitting(s, room).len() as int),
        room >= 0 ==> width_of(fitting(s, room)) <= room,
        fitting(s, room).len() < s.len() ==> width_of(
            s.take((fitting(s, room).len() + 1) as int),
        ) > room,
    decreases s.len(),
{
    if s.len() == 0 || cells(s[0]) > room {
        assert(fitting(s, room) =~= s.take(0));
        if s.len() > 0 {
            assert(s.take(1).drop_last() =~= Seq::<char>::empty());
        }
    } else {
        let rest = fitting(s.drop_first(), room - cells(s[0]));
        let k = rest.len() as int;
        lemma_fitting(s.drop_first(), room - cells(s[0]));
        assert(seq![s[0]] + s.drop_first().take(k) =~= s.take(k + 1));
        lemma_width_first(fitting(s, room));
        assert(fitting(s, room).drop_first() =~= rest);
        if k + 1 < s.len() {
            lemma_width_first(s.take(k + 2));
            assert(s.take(k + 2).drop_first() =~= s.drop_first().take(k + 1));
        }
    }
}

/// A text cut to `max` cells takes no more than `max` cells.
pub proof fn truncated_text_fits(s: Seq<char>, max: int)
    requires
        max >= 0,
    ensures
        width_of(truncated(s, max)) <= max,
{
    if width_of(s) > max && max > 0 {
        lemma_fitting(s, max - 1);
        let cut = fitting(s, max - 1);
        assert((cut + seq!['…']).drop_last() =~= cut);
    }
}

/// A cut text keeps as much of the front as fits beside the ellipsis: one character more would
/// not fit.
pub proof fn truncation_keeps_the_longest_front(s: Seq<char>, max: int)
    requires
        width_of(s) > max >= 1,
    ensures
        ({
            let kept = fitting(s, max - 1);
            &&& truncated(s, max) == kept + seq!['…']
            &&& kept == s.take(kept.len() as int)
            &&& width_of(kept) <= max - 1
            &&& kept.len() < s.len()
            &&& width_of(s.take((kept.len() + 1) as int)) > max - 1
        }),
{
    lemma_fitting(s, max - 1);
    let kept = fitting(s, max - 1);
    if kept.len() == s.len() {
        assert(s.take(s.len() as int) =~= s);
    }
}

proof fn lemma_width_spaces(k: int)
    requires
        k >= 0,
    ensures
        width_of(repeated(' ', k)) == k,
    decreases k,
{
    if k > 0 {
        lemma_width_spaces(k - 1);
        assert(repeated(' ', k).drop_last() =~= repeated(' ', k - 1));
    }
}

/// A padded text takes `width` cells, or its own width where that is more.
pub proof fn padded_text_fills(s: Seq<char>, width: int)
    ensures
        width_of(padded(s, width)) == if width_of(s) < width {
            width
        } else {
            width_of(s) as int
        },
{
    let k = width - width_of(s);
    lemma_width_add(s, repeated(' ', k));
    if k > 0 {
        lemma_width_spaces(k);
    } else {
        assert(repeated(' ', k) =~= Seq::<char>::empty());
    }
}

/// A text cut and then padded to the same width fills it exactly: columns line up.
pub proof fn columns_line_up(s: Seq<char>, width: int)
    requires
        width >= 0,
    ensures
        width_of(padded(truncated(s, width), width)) == width,
{
    truncated_text_fits(s, width);
    padded_text_fills(truncated(s, width), width);
}

/// Tells commas from other characters.
pub open spec fn no_comma() -> spec_fn(char) -> bool {
    |c: char| c != ','
}

proof fn lemma_nothing_filtered(s: Seq<char>)
    requires
        all_digits(s),
    ensures
        s.filter(no_comma()) == s,
    decreases s.len(),
{
    reveal(Seq::filter);
    if s.len() > 0 {
        let front = s.drop_last();
        assert forall|i: int| 0 <= i < front.len() implies is_digit(#[trigger] front[i]) by {
            assert(front[i] == s[i]);
        }
        lemma_nothing_filtered(front);
        assert(is_digit(s[s.len() - 1]));
        assert(s =~= front.push(s.last()));
    } else {
        assert(s.filter(no_comma()) =~= s);
    }
}

proof fn lemma_grouped(s: Seq<char>)
    requires
        all_digits(s),
    ensures
        grouped(s).filter(no_comma()) == s,
    decreases s.len(),
{
    if s.len() <= 3 {
        lemma_nothing_filtered(s);
    } else {
        let head = s.take(s.len() - 3);
        let tail = s.skip(s.len() - 3);
        assert forall|i: int| 0 <= i < head.len() implies is_digit(#[trigger] head[i]) by {
            assert(head[i] == s[i]);
        }
        assert forall|i: int| 0 <= i < tail.len() implies is_digit(#[trigger] tail[i]) by {
            assert(tail[i] == s[i + s.len() - 3]);
        }
        lemma_grouped(head);
        lemma_nothing_filtered(tail);
        let comma = seq![','];
        Seq::filter_distributes_over_add(grouped(head) + comma, tail, no_comma());
        Seq::filter_distributes_over_add(grouped(head), comma, no_comma());
        comma.lemma_all_neg_filter_empty(no_comma());
        assert(comma.filter(no_comma()) =~= Seq::<char>::empty());
        assert(head + Seq::<char>::empty() + tail =~= s);
    }
}

/// The separators change nothing but the look of a count: without the commas its digits remain.
pub proof fn counts_keep_their_digits(n: nat)
    ensures
        grouped(decimal(n)).filter(no_comma()) == decimal(n),
{
    lemma_decimal(n);
    lemma_grouped(decimal(n));
}

/// Whole sizes are told as such: a whole number of KB, MB, GB or TB is told with that number, one zero
/// behind the point, and the name of the unit; below 1024 bytes the bytes are told.
pub proof fn whole_sizes_are_told_as_such(k: nat)
    requires
        1 <= k < 1024,
    ensures
        size_text(k) == decimal(k) + " B"@,
        size_text(k * 0x400) == decimal(k) + seq!['.', '0'] + " KB"@,
        size_text(k * 0x10_0000) == decimal(k) + seq!['.', '0'] + " MB"@,
        size_text(k * 0x4000_0000) == decimal(k) + seq!['.', '0'] + " GB"@,
        size_text(k * 0x100_0000_0000) == decimal(k) + seq!['.', '0'] + " TB"@,
{
    lemma_whole(k, 0x400);
    lemma_whole(k, 0x10_0000);
    lemma_whole(k, 0x4000_0000);
    lemma_whole(k, 0x100_0000_0000);
    assert(digit_char(0) == '0');
}

proof fn lemma_whole(k: nat, unit: nat)
    requires
        1 <= k < 1024,
        unit == 0x400 || unit == 0x10_0000 || unit == 0x4000_0000 || unit == 0x100_0000_0000,
    ensures
        nearest_double(k * unit) == k * unit,
        unit_bytes(k * unit) == unit,
        rounded_div(k * unit * 10, unit) == k * 10,
        (k * 10) / 10 == k,
        (k * 10) % 10 == 0,
        k * unit >= 1024,
{
    let n = k * unit;
    assert(n < 0x20_0000_0000_0000 && n >= unit && n < 1024 * unit) by (nonlinear_arith)
        requires
            n == k * unit,
            1 <= k < 1024,
            unit == 0x400 || unit == 0x10_0000 || unit == 0x4000_0000 || unit == 0x100_0000_0000,
    ;
    assert(spacing(n) == 1);
    assert(n / 1 == n && n % 1 == 0);
    assert((k * unit * 10) == (k * 10) * unit) by (nonlinear_arith);
    vstd::arithmetic::div_mod::lemma_div_multiples_vanish((k * 10) as int, unit as int);
    vstd::arithmetic::div_mod::lemma_mod_multiples_basic((k * 10) as int, unit as int);
    assert(unit * (k * 10) == (k * 10) * unit) by (nonlinear_arith);
}

/// Only `y` and `yes`, in any case, are a yes; nothing, and everything else, is a no. The end of the line
/// does not matter.
pub proof fn only_yes_is_yes(word: Seq<char>)
    requires
        word.len() > 0 ==> !is_space(word[0]) && !is_space(word.last()),
    ensures
        means_yes(word) <==> {
            ||| word.len() == 1 && (word[0] == 'y' || word[0] == 'Y')
            ||| word.len() == 3 && (word[0] == 'y' || word[0] == 'Y') && (word[1] == 'e' || word[1]
                == 'E') && (word[2] == 's' || word[2] == 'S')
        },
        means_yes(word.push('\n')) == means_yes(word),
{
    lemma_nothing_to_trim(word);
    reveal_strlit("y");
    reveal_strlit("yes");
    let l = ascii_lower(word);
    if word.len() > 0 {
        assert(l[0] == ascii_lower_char(word[0]));
    }
    if word.len() == 3 {
        assert(l[1] == ascii_lower_char(word[1]) && l[2] == ascii_lower_char(word[2]));
    }
    if word.len() == 1 && (word[0] == 'y' || word[0] == 'Y') {
        assert(l =~= "y"@);
    }
    if word.len() == 3 && l[0] == 'y' && l[1] == 'e' && l[2] == 's' {
        assert(l =~= "yes"@);
    }
    if means_yes(word) {
        assert(l.len() == word.len());
        if l == "y"@ {
            assert(l.len() == 1 && l[0] == 'y');
            assert(word[0] == 'y' || word[0] == 'Y');
        } else {
            assert(l.len() == 3 && l[0] == 'y' && l[1] == 'e' && l[2] == 's');
            assert(word[0] == 'y' || word[0] == 'Y');
            assert(word[1] == 'e' || word[1] == 'E');
            assert(word[2] == 's' || word[2] == 'S');
        }
    }
    if word.len() == 3 && (word[0] == 'y' || word[0] == 'Y') && (word[1] == 'e' || word[1] == 'E')
        && (word[2] == 's' || word[2] == 'S') {
        assert(l[0] == 'y' && l[1] == 'e' && l[2] == 's');
        assert(l =~= "yes"@);
    }
    let line = word.push('\n');
    assert(line.drop_last() =~= word);
    if word.len() > 0 {
        lemma_run_len(line, |c: char| is_space(c), 0);
        assert(line.skip(0) =~= line);
        assert(trimmed(line) == word);
    } else {
        assert(line.len() == 1);
        lemma_run_len(line, |c: char| is_space(c), 1);
        assert(line.skip(1) =~= Seq::<char>::empty());
        assert(trimmed(line) =~= Seq::<char>::empty());
        assert(word =~= Seq::<char>::empty());
    }
}

} // verus!
