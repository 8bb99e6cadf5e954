//! Counting the line breaks of a text: how many rows of the terminal it takes.

use vstd::prelude::*;

use crate::number::{decimal, digit_char, lemma_decimal, repeated, right_aligned};
use crate::text::is_digit;
use crate::ui::{
    fitting, lemma_fitting, padded, painted, rounded_div, size_text, truncated, unit_name, width_of,
};

verus! {

/// How many line breaks a text holds: carriage returns with a line feed behind them.
pub open spec fn breaks(s: Seq<char>) -> nat
    decreases s.len(),
{
    if s.len() < 2 {
        0
    } else {
        breaks(s.drop_last()) + (if s.last() == '\n' && s[s.len() - 2] == '\r' {
            1nat
        } else {
            0nat
        })
    }
}

/// The text is on one line.
pub open spec fn one_line(s: Seq<char>) -> bool {
    breaks(s) == 0
}

/// The text holds no line feed at all.
pub open spec fn no_feed(s: Seq<char>) -> bool {
    forall|i: int| 0 <= i < s.len() ==> #[trigger] s[i] != '\n'
}

/// A break comes about where the texts are put together: the first ends with a carriage return, and
/// the second begins with a line feed.
pub open spec fn break_between(a: Seq<char>, b: Seq<char>) -> bool {
    a.len() > 0 && b.len() > 0 && a.last() == '\r' && b[0] == '\n'
}

pub proof fn lemma_breaks_add(a: Seq<char>, b: Seq<char>)
    ensures
        breaks(a + b) == breaks(a) + breaks(b) + (if break_between(a, b) {
            1nat
        } else {
            0nat
        }),
    decreases b.len(),
{
    if b.len() == 0 {
        assert(a + b =~= a);
    } else if b.len() == 1 {
        assert((a + b).drop_last() =~= a);
        if a.len() == 0 {
            assert(a + b =~= b);
        }
    } else {
        lemma_breaks_add(a, b.drop_last());
        assert((a + b).drop_last() =~= a + b.drop_last());
        assert((a + b)[(a + b).len() - 2] == b[b.len() - 2]);
    }
}

proof fn lemma_breaks_take(s: Seq<char>, k: int)
    requires
        0 <= k <= s.len(),
    ensures
        breaks(s.take(k)) <= breaks(s),
{
    lemma_breaks_add(s.take(k), s.skip(k));
    assert(s.take(k) + s.skip(k) =~= s);
}

pub proof fn lemma_no_feed(s: Seq<char>)
    requires
        no_feed(s),
    ensures
        one_line(s),
    decreases s.len(),
{
    if s.len() >= 2 {
        assert(s[s.len() - 1] != '\n');
        assert forall|i: int| 0 <= i < s.drop_last().len() implies #[trigger] s.drop_last()[i]
            != '\n' by {
            assert(s[i] != '\n');
        }
        lemma_no_feed(s.drop_last());
    }
}

/// Texts on one line make one line, where no break comes about between them.
pub proof fn lemma_one_line_add(a: Seq<char>, b: Seq<char>)
    requires
        one_line(a),
        one_line(b),
        !break_between(a, b),
    ensures
        one_line(a + b),
{
    lemma_breaks_add(a, b);
}

pub proof fn lemma_no_feed_add(a: Seq<char>, b: Seq<char>)
    requires
        no_feed(a),
        no_feed(b),
    ensures
        no_feed(a + b),
{
}

pub proof fn lemma_decimal_line(n: nat)
    ensures
        no_feed(decimal(n)),
{
    lemma_decimal(n);
    assert forall|i: int| 0 <= i < decimal(n).len() implies #[trigger] decimal(n)[i] != '\n' by {
        assert(is_digit(decimal(n)[i]));
    }
}

pub proof fn lemma_size_line(n: nat)
    ensures
        no_feed(size_text(n)),
{
    reveal_strlit(" B");
    reveal_strlit(" KB");
    reveal_strlit(" MB");
    reveal_strlit(" GB");
    reveal_strlit(" TB");
    if n < 1024 {
        lemma_decimal_line(n);
    } else {
        let v = crate::ui::nearest_double(n);
        let tenths = rounded_div(v * 10, crate::ui::unit_bytes(v));
        lemma_decimal_line(tenths / 10);
        assert(digit_char(tenths % 10) != '\n');
        assert(no_feed(unit_name(v)));
        lemma_no_feed_add(decimal(tenths / 10), seq!['.', digit_char(tenths % 10)]);
        lemma_no_feed_add(
            decimal(tenths / 10) + seq!['.', digit_char(tenths % 10)],
            unit_name(v),
        );
    }
}

pub proof fn lemma_truncated_line(s: Seq<char>, max: int)
    requires
        one_line(s),
    ensures
        one_line(truncated(s, max)),
{
    let cut = fitting(s, max - 1);
    lemma_fitting(s, max - 1);
    lemma_breaks_take(s, cut.len() as int);
    lemma_one_line_add(cut, seq!['…']);
}

pub proof fn lemma_padded_line(s: Seq<char>, width: int)
    requires
        one_line(s),
    ensures
        one_line(padded(s, width)),
{
    let blanks = repeated(' ', width - width_of(s));
    lemma_no_feed(blanks);
    lemma_one_line_add(s, blanks);
}

pub proof fn lemma_aligned_line(s: Seq<char>, width: int)
    requires
        no_feed(s),
    ensures
        no_feed(right_aligned(s, width)),
{
}

pub proof fn lemma_painted_line(on: bool, code: Seq<char>, s: Seq<char>)
    requires
        one_line(s),
        no_feed(code),
    ensures
        one_line(painted(on, code, s)),
{
    if on {
        reveal_strlit("\x1b[");
        reveal_strlit("m");
        reveal_strlit("\x1b[0m");
        let front = "\x1b["@ + code + "m"@;
        lemma_no_feed(front);
        lemma_no_feed("\x1b[0m"@);
        lemma_one_line_add(front, s);
        lemma_one_line_add(front + s, "\x1b[0m"@);
    }
}

/// Painting puts no line feed into a text.
pub proof fn lemma_painted_no_feed(on: bool, code: Seq<char>, s: Seq<char>)
    requires
        no_feed(s),
        no_feed(code),
    ensures
        no_feed(painted(on, code, s)),
{
    reveal_strlit("\x1b[");
    reveal_strlit("m");
    reveal_strlit("\x1b[0m");
}

} // verus!
