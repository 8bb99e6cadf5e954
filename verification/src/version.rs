//! The order of versions: part by part, numbers by their value.

use vstd::prelude::*;

use crate::number::{digit_value, digits_value};
use crate::text::{
    all_digits, digits_only, is_digit, not_after, rows, same, split_char, split_on, text_le,
};

verus! {

/// The part of a version is a number.
pub open spec fn is_number(p: Seq<char>) -> bool {
    p.len() > 0 && all_digits(p)
}

/// How two numbers are ordered: below 0, 0, or above 0.
pub open spec fn number_order(a: nat, b: nat) -> int {
    if a < b {
        -1
    } else if a == b {
        0
    } else {
        1
    }
}

/// How two texts are ordered, by code points.
pub open spec fn text_order(a: Seq<char>, b: Seq<char>) -> int {
    if a == b {
        0
    } else if text_le(a, b) {
        -1
    } else {
        1
    }
}

/// How two parts are ordered: numbers by their value, others by code points, and a number before a
/// part that is none.
pub open spec fn part_order(a: Seq<char>, b: Seq<char>) -> int {
    if is_number(a) && is_number(b) {
        number_order(digits_value(a), digits_value(b))
    } else if is_number(a) {
        -1
    } else if is_number(b) {
        1
    } else {
        text_order(a, b)
    }
}

/// How two lists of parts are ordered: the first parts that differ decide, and a list that ends first
/// comes first.
pub open spec fn parts_order(a: Seq<Seq<char>>, b: Seq<Seq<char>>) -> int
    decreases a.len(),
{
    if a.len() == 0 {
        if b.len() == 0 {
            0
        } else {
            -1
        }
    } else if b.len() == 0 {
        1
    } else if part_order(a[0], b[0]) != 0 {
        part_order(a[0], b[0])
    } else {
        parts_order(a.drop_first(), b.drop_first())
    }
}

/// How two versions are ordered: by their parts between the dots. Versions whose parts are alike, such
/// as `1.0` and `1.00`, go by code points.
pub open spec fn version_order(a: Seq<char>, b: Seq<char>) -> int {
    let o = parts_order(split_on(a, '.'), split_on(b, '.'));
    if o != 0 {
        o
    } else {
        text_order(a, b)
    }
}

/// The first version is no higher than the second.
pub open spec fn version_le(a: Seq<char>, b: Seq<char>) -> bool {
    version_order(a, b) <= 0
}

// ---------------------------------------------------------------------------
// It is an order
// ---------------------------------------------------------------------------

proof fn lemma_text_order(a: Seq<char>, b: Seq<char>, c: Seq<char>)
    ensures
        text_order(a, b) == -text_order(b, a),
        text_order(a, b) <= 0 && text_order(b, c) <= 0 ==> text_order(a, c) <= 0,
        text_order(a, b) < 0 && text_order(b, c) <= 0 ==> text_order(a, c) < 0,
        text_order(a, b) <= 0 && text_order(b, c) < 0 ==> text_order(a, c) < 0,
{
    crate::text::lemma_text_le_total(a, b);
    if text_le(a, b) && text_le(b, a) {
        crate::text::lemma_text_le_antisym(a, b);
    }
    if text_le(a, b) && text_le(b, c) {
        crate::text::lemma_text_le_trans(a, b, c);
    }
}

proof fn lemma_part_order(a: Seq<char>, b: Seq<char>, c: Seq<char>)
    ensures
        part_order(a, b) == -part_order(b, a),
        part_order(a, b) <= 0 && part_order(b, c) <= 0 ==> part_order(a, c) <= 0,
        part_order(a, b) < 0 && part_order(b, c) <= 0 ==> part_order(a, c) < 0,
        part_order(a, b) <= 0 && part_order(b, c) < 0 ==> part_order(a, c) < 0,
{
    lemma_text_order(a, b, c);
}

proof fn lemma_parts_order(a: Seq<Seq<char>>, b: Seq<Seq<char>>, c: Seq<Seq<char>>)
    ensures
        parts_order(a, b) == -parts_order(b, a),
        parts_order(a, b) <= 0 && parts_order(b, c) <= 0 ==> parts_order(a, c) <= 0,
        parts_order(a, b) < 0 && parts_order(b, c) <= 0 ==> parts_order(a, c) < 0,
        parts_order(a, b) <= 0 && parts_order(b, c) < 0 ==> parts_order(a, c) < 0,
    decreases a.len(),
{
    if a.len() > 0 && b.len() > 0 {
        let z = if c.len() > 0 {
            c[0]
        } else {
            seq![]
        };
        lemma_part_order(a[0], b[0], z);
        lemma_part_order(b[0], z, a[0]);
        lemma_part_order(z, a[0], b[0]);
        lemma_parts_order(a.drop_first(), b.drop_first(), c.drop_first());
    }
}

/// Of two versions one is no higher than the other.
pub proof fn lemma_version_le_total(a: Seq<char>, b: Seq<char>)
    ensures
        version_le(a, b) || version_le(b, a),
{
    lemma_parts_order(split_on(a, '.'), split_on(b, '.'), seq![]);
    lemma_text_order(a, b, b);
}

pub proof fn lemma_version_le_trans(a: Seq<char>, b: Seq<char>, c: Seq<char>)
    requires
        version_le(a, b),
        version_le(b, c),
    ensures
        version_le(a, c),
{
    let x = split_on(a, '.');
    let y = split_on(b, '.');
    let z = split_on(c, '.');
    lemma_parts_order(x, y, z);
    lemma_parts_order(y, z, x);
    lemma_parts_order(z, x, y);
    lemma_text_order(a, b, c);
}

pub proof fn lemma_version_le_antisym(a: Seq<char>, b: Seq<char>)
    requires
        version_le(a, b),
        version_le(b, a),
    ensures
        a == b,
{
    lemma_parts_order(split_on(a, '.'), split_on(b, '.'), seq![]);
    lemma_text_order(a, b, b);
}

// ---------------------------------------------------------------------------
// Comparing
// ---------------------------------------------------------------------------

/// Which of two values is the smaller.
#[derive(Clone, Copy, PartialEq, Eq, Debug, Structural)]
pub enum Side {
    First,
    Neither,
    Second,
}

impl Side {
    /// The order that the side stands for.
    pub open spec fn order(self) -> int {
        match self {
            Side::First => -1,
            Side::Neither => 0,
            Side::Second => 1,
        }
    }
}

/// How many of the first `i` places of a number written with `skip` places in front of it hold its
/// digits.
spec fn seen(i: int, skip: int) -> int {
    if i < skip {
        0
    } else {
        i - skip
    }
}

proof fn lemma_next_digit(s: Seq<char>, i: int, skip: int)
    requires
        all_digits(s),
        0 <= skip,
        0 <= i < s.len() + skip,
    ensures
        i < skip ==> digits_value(s.take(seen(i + 1, skip))) == 0 && digits_value(
            s.take(seen(i, skip)),
        ) == 0,
        i >= skip ==> digits_value(s.take(seen(i + 1, skip))) == digits_value(
            s.take(seen(i, skip)),
        ) * 10 + digit_value(s[i - skip]),
{
    assert(s.take(0) =~= Seq::<char>::empty());
    if i >= skip {
        assert(s.take(i - skip + 1).drop_last() =~= s.take(i - skip));
    }
}

fn compare_numbers(a: &[char], b: &[char]) -> (r: Side)
    requires
        all_digits(a@),
        all_digits(b@),
    ensures
        r.order() == number_order(digits_value(a@), digits_value(b@)),
{
    let n: usize = if a.len() > b.len() {
        a.len()
    } else {
        b.len()
    };
    let ka: usize = n - a.len();
    let kb: usize = n - b.len();
    let mut side = Side::Neither;
    assert(a@.take(0) =~= Seq::<char>::empty());
    assert(b@.take(0) =~= Seq::<char>::empty());
    for i in 0..n
        invariant
            all_digits(a@),
            all_digits(b@),
            n == a@.len() + ka,
            n == b@.len() + kb,
            side.order() == number_order(
                digits_value(a@.take(seen(i as int, ka as int))),
                digits_value(b@.take(seen(i as int, kb as int))),
            ),
    {
        proof {
            lemma_next_digit(a@, i as int, ka as int);
            lemma_next_digit(b@, i as int, kb as int);
        }
        let x: u8 = if i < ka {
            0
        } else {
            assert(is_digit(a@[i - ka]));
            a[i - ka] as u8 - 48
        };
        let y: u8 = if i < kb {
            0
        } else {
            assert(is_digit(b@[i - kb]));
            b[i - kb] as u8 - 48
        };
        if matches!(side, Side::Neither) {
            if x < y {
                side = Side::First;
            } else if y < x {
                side = Side::Second;
            }
        }
    }
    assert(a@.take(a@.len() as int) =~= a@);
    assert(b@.take(b@.len() as int) =~= b@);
    side
}

fn number(p: &[char]) -> (r: bool)
    ensures
        r == is_number(p@),
{
    p.len() > 0 && digits_only(p)
}

fn compare_texts(a: &[char], b: &[char]) -> (r: Side)
    ensures
        r.order() == text_order(a@, b@),
{
    if same(a, b) {
        Side::Neither
    } else if not_after(a, b) {
        Side::First
    } else {
        Side::Second
    }
}

fn compare_parts(a: &[char], b: &[char]) -> (r: Side)
    ensures
        r.order() == part_order(a@, b@),
{
    let x = number(a);
    let y = number(b);
    if x && y {
        compare_numbers(a, b)
    } else if x {
        Side::First
    } else if y {
        Side::Second
    } else {
        compare_texts(a, b)
    }
}

/// Whether a version is no higher than another.
pub fn not_above(a: &[char], b: &[char]) -> (r: bool)
    ensures
        r == version_le(a@, b@),
{
    let x = split_char(a, '.');
    let y = split_char(b, '.');
    let ghost xs = rows(x@);
    let ghost ys = rows(y@);
    assert(xs.skip(0) =~= xs);
    assert(ys.skip(0) =~= ys);
    let mut i: usize = 0;
    while i < x.len() && i < y.len()
        invariant
            i <= x@.len(),
            i <= y@.len(),
            xs == rows(x@),
            ys == rows(y@),
            xs == split_on(a@, '.'),
            ys == split_on(b@, '.'),
            parts_order(xs, ys) == parts_order(xs.skip(i as int), ys.skip(i as int)),
        decreases x@.len() - i,
    {
        assert(xs.skip(i as int)[0] == x@[i as int]@);
        assert(ys.skip(i as int)[0] == y@[i as int]@);
        assert(xs.skip(i as int).drop_first() =~= xs.skip(i + 1));
        assert(ys.skip(i as int).drop_first() =~= ys.skip(i + 1));
        match compare_parts(x[i].as_slice(), y[i].as_slice()) {
            Side::First => {
                return true;
            },
            Side::Second => {
                return false;
            },
            Side::Neither => {},
        }
        i = i + 1;
    }
    if i < y.len() {
        return true;
    }
    if i < x.len() {
        return false;
    }
    !matches!(compare_texts(a, b), Side::Second)
}

// ---------------------------------------------------------------------------
// Laws
// ---------------------------------------------------------------------------

/// The first parts that differ decide: where they are numbers, the version with the bigger one is the
/// higher, however many digits they have.
pub proof fn the_bigger_number_is_higher(a: Seq<char>, b: Seq<char>, k: int)
    requires
        0 <= k < split_on(a, '.').len(),
        k < split_on(b, '.').len(),
        split_on(a, '.').take(k) == split_on(b, '.').take(k),
        is_number(split_on(a, '.')[k]),
        is_number(split_on(b, '.')[k]),
        digits_value(split_on(a, '.')[k]) < digits_value(split_on(b, '.')[k]),
    ensures
        version_le(a, b),
        !version_le(b, a),
{
    let x = split_on(a, '.');
    let y = split_on(b, '.');
    lemma_differs_at(x, y, k);
    lemma_parts_order(x, y, x);
}

proof fn lemma_differs_at(x: Seq<Seq<char>>, y: Seq<Seq<char>>, k: int)
    requires
        0 <= k < x.len(),
        k < y.len(),
        x.take(k) == y.take(k),
        part_order(x[k], y[k]) < 0,
    ensures
        parts_order(x, y) < 0,
    decreases k,
{
    if k > 0 {
        assert(x.take(k)[0] == y.take(k)[0]);
        let u = x.drop_first();
        let v = y.drop_first();
        assert forall|i: int| 0 <= i < k - 1 implies u[i] == v[i] by {
            assert(x.take(k)[i + 1] == y.take(k)[i + 1]);
        }
        assert(u.take(k - 1) =~= v.take(k - 1));
        lemma_differs_at(u, v, k - 1);
    }
}

} // verus!
