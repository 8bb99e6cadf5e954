//! Characters and character sequences: the text operations every other module builds on.
//!
//! Text is modelled as `Seq<char>`. Executable code works on character slices, so that every
//! position is a character position, and turns strings into characters at its edges.

use vstd::prelude::*;
use vstd::slice::slice_subrange;

verus! {

// ---------------------------------------------------------------------------
// Strings and characters
// ---------------------------------------------------------------------------

/// `String::push` appends the given character to the end of the string.
pub assume_specification[ String::push ](s: &mut String, c: char)
    ensures
        final(s)@ == old(s)@.push(c),
;

/// What `str::to_lowercase` makes of a text: Unicode lower case, character by character and,
/// for the final sigma, by context.
pub uninterp spec fn lowercase(s: Seq<char>) -> Seq<char>;

/// `str::to_lowercase` gives the Unicode lower case of a string. On a string of ASCII characters
/// alone it changes `A` to `Z` into `a` to `z` and nothing else. Which characters it changes
/// beyond ASCII is left to the name `lowercase`.
pub assume_specification[ str::to_lowercase ](s: &str) -> (r: String)
    ensures
        r@ == lowercase(s@),
        all_ascii(s@) ==> r@ == ascii_lower(s@),
;

/// The text in lower case: `A` to `Z` become `a` to `z`, and which characters beyond ASCII change, and
/// into what, is for the name `lowercase` to say.
pub open spec fn folded(s: Seq<char>) -> Seq<char> {
    if all_ascii(s) {
        ascii_lower(s)
    } else {
        lowercase(s)
    }
}

/// Every character is below U+0080.
pub open spec fn all_ascii(s: Seq<char>) -> bool {
    forall|i: int| 0 <= i < s.len() ==> #[trigger] s[i] < '\u{80}'
}

/// The characters of a string, in order.
pub fn chars_of(s: &str) -> (r: Vec<char>)
    ensures
        r@ == s@,
{
    let mut out: Vec<char> = Vec::new();
    for c in it: s.chars()
        invariant
            it.seq() == s@,
            out@ == s@.take(it.index() as int),
    {
        out.push(c);
    }
    assert(s@.take(s@.len() as int) =~= s@);
    out
}

/// The string made of the given characters.
pub fn string_of(cs: &[char]) -> (r: String)
    ensures
        r@ == cs@,
{
    let mut out = String::new();
    for i in 0..cs.len()
        invariant
            out@ == cs@.take(i as int),
    {
        out.push(cs[i]);
        assert(cs@.take(i as int).push(cs@[i as int]) =~= cs@.take(i + 1));
    }
    assert(cs@.take(cs@.len() as int) =~= cs@);
    out
}

/// The characters of the lower case of a text.
pub fn lower_chars(cs: &[char]) -> (r: Vec<char>)
    ensures
        r@ == lowercase(cs@),
        r@ == folded(cs@),
        all_ascii(cs@) ==> r@ == ascii_lower(cs@),
{
    chars_of(string_of(cs).as_str().to_lowercase().as_str())
}

/// The characters of the lower case of a string.
pub fn lower_of(s: &str) -> (r: Vec<char>)
    ensures
        r@ == lowercase(s@),
        r@ == folded(s@),
        all_ascii(s@) ==> r@ == ascii_lower(s@),
{
    chars_of(s.to_lowercase().as_str())
}

/// The texts of a list of strings.
pub open spec fn texts(v: Seq<String>) -> Seq<Seq<char>> {
    v.map_values(|s: String| s@)
}

/// The texts of a list of string slices.
pub open spec fn str_texts(v: Seq<&str>) -> Seq<Seq<char>> {
    v.map_values(|s: &str| s@)
}

/// The texts of a list of character vectors.
pub open spec fn rows(v: Seq<Vec<char>>) -> Seq<Seq<char>> {
    v.map_values(|s: Vec<char>| s@)
}

pub broadcast proof fn lemma_rows_push(v: Seq<Vec<char>>, x: Vec<char>)
    ensures
        #[trigger] rows(v.push(x)) == rows(v).push(x@),
{
    assert(rows(v.push(x)) =~= rows(v).push(x@));
}

/// The text of an optional string.
pub open spec fn text_opt(o: Option<String>) -> Option<Seq<char>> {
    match o {
        Some(s) => Some(s@),
        None => None,
    }
}

/// Whether two texts are the same.
pub fn same(a: &[char], b: &[char]) -> (r: bool)
    ensures
        r == (a@ == b@),
{
    if a.len() != b.len() {
        return false;
    }
    for i in 0..a.len()
        invariant
            a@.len() == b@.len(),
            forall|j: int| 0 <= j < i ==> a@[j] == b@[j],
    {
        if a[i] != b[i] {
            return false;
        }
    }
    assert(a@ =~= b@);
    true
}

/// Whether a text is the given string.
pub fn same_str(a: &[char], b: &str) -> (r: bool)
    ensures
        r == (a@ == b@),
{
    same(a, chars_of(b).as_slice())
}

/// Whether two strings hold the same text.
pub fn str_eq(a: &str, b: &str) -> (r: bool)
    ensures
        r == (a@ == b@),
{
    same(chars_of(a).as_slice(), chars_of(b).as_slice())
}

/// Whether a list of strings holds a text.
pub fn has_text(list: &Vec<String>, x: &str) -> (r: bool)
    ensures
        r == texts(list@).contains(x@),
{
    for i in 0..list.len()
        invariant
            forall|j: int| 0 <= j < i ==> list@[j]@ != x@,
    {
        if str_eq(list[i].as_str(), x) {
            assert(texts(list@)[i as int] == x@);
            return true;
        }
    }
    assert(forall|j: int| 0 <= j < list@.len() ==> texts(list@)[j] == list@[j]@);
    false
}

/// Adds a string to the end of a list.
pub fn push_text(list: &mut Vec<String>, s: String)
    ensures
        texts(final(list)@) == texts(old(list)@).push(s@),
{
    list.push(s);
    assert(texts(list@) =~= texts(old(list)@).push(s@));
}

/// The empty list of strings.
pub fn no_texts() -> (r: Vec<String>)
    ensures
        texts(r@) == Seq::<Seq<char>>::empty(),
{
    let r: Vec<String> = Vec::new();
    assert(texts(r@) =~= Seq::<Seq<char>>::empty());
    r
}

/// A copy of a list of strings.
pub fn copy_texts(list: &Vec<String>) -> (r: Vec<String>)
    ensures
        texts(r@) == texts(list@),
{
    let mut out = no_texts();
    let ghost all = texts(list@);
    assert(texts(out@) =~= all.take(0));
    for i in 0..list.len()
        invariant
            all == texts(list@),
            texts(out@) == all.take(i as int),
    {
        push_text(&mut out, list[i].clone());
        assert(texts(out@) =~= all.take(i + 1));
    }
    assert(all.take(all.len() as int) =~= all);
    out
}

// ---------------------------------------------------------------------------
// Character classes
// ---------------------------------------------------------------------------

/// Unicode white space.
pub open spec fn is_space(c: char) -> bool {
    ||| '\u{9}' <= c <= '\u{d}'
    ||| c == ' '
    ||| c == '\u{85}'
    ||| c == '\u{a0}'
    ||| c == '\u{1680}'
    ||| '\u{2000}' <= c <= '\u{200a}'
    ||| c == '\u{2028}'
    ||| c == '\u{2029}'
    ||| c == '\u{202f}'
    ||| c == '\u{205f}'
    ||| c == '\u{3000}'
}

pub fn space(c: char) -> (r: bool)
    ensures
        r == is_space(c),
{
    ('\u{9}' <= c && c <= '\u{d}') || c == ' ' || c == '\u{85}' || c == '\u{a0}' || c == '\u{1680}'
        || ('\u{2000}' <= c && c <= '\u{200a}') || c == '\u{2028}' || c == '\u{2029}' || c
        == '\u{202f}' || c == '\u{205f}' || c == '\u{3000}'
}

/// An ASCII digit.
pub open spec fn is_digit(c: char) -> bool {
    '0' <= c <= '9'
}

pub fn digit(c: char) -> (r: bool)
    ensures
        r == is_digit(c),
{
    '0' <= c && c <= '9'
}

/// An ASCII hexadecimal digit.
pub open spec fn is_hex(c: char) -> bool {
    is_digit(c) || 'a' <= c <= 'f' || 'A' <= c <= 'F'
}

pub fn hex(c: char) -> (r: bool)
    ensures
        r == is_hex(c),
{
    digit(c) || ('a' <= c && c <= 'f') || ('A' <= c && c <= 'F')
}

/// Every character is an ASCII digit.
pub open spec fn all_digits(s: Seq<char>) -> bool {
    forall|i: int| 0 <= i < s.len() ==> is_digit(#[trigger] s[i])
}

pub fn digits_only(s: &[char]) -> (r: bool)
    ensures
        r == all_digits(s@),
{
    for i in 0..s.len()
        invariant
            forall|j: int| 0 <= j < i ==> is_digit(#[trigger] s@[j]),
    {
        if !digit(s[i]) {
            return false;
        }
    }
    true
}

/// An ASCII capital becomes its small letter; every other character stays.
pub open spec fn ascii_lower_char(c: char) -> char {
    if 'A' <= c <= 'Z' {
        ((c as u8 + 32) as u8) as char
    } else {
        c
    }
}

pub fn lower_char(c: char) -> (r: char)
    ensures
        r == ascii_lower_char(c),
{
    if 'A' <= c && c <= 'Z' {
        (c as u8 + 32) as char
    } else {
        c
    }
}

/// The text with its ASCII capitals made small.
pub open spec fn ascii_lower(s: Seq<char>) -> Seq<char> {
    s.map_values(|c: char| ascii_lower_char(c))
}

pub fn lower_ascii(s: &[char]) -> (r: Vec<char>)
    ensures
        r@ == ascii_lower(s@),
{
    let mut out: Vec<char> = Vec::new();
    for i in 0..s.len()
        invariant
            out@ == ascii_lower(s@.take(i as int)),
    {
        out.push(lower_char(s[i]));
        assert(out@ =~= ascii_lower(s@.take(i + 1)));
    }
    assert(s@.take(s@.len() as int) =~= s@);
    out
}

// ---------------------------------------------------------------------------
// Runs, trimming
// ---------------------------------------------------------------------------

/// How many characters at the front satisfy `f`, up to the first that does not.
pub open spec fn run_len(s: Seq<char>, f: spec_fn(char) -> bool) -> int
    decreases s.len(),
{
    if s.len() == 0 || !f(s[0]) {
        0
    } else {
        1 + run_len(s.drop_first(), f)
    }
}

/// The run ends at `k` when everything before `k` satisfies `f` and `k` does not.
pub proof fn lemma_run_len(s: Seq<char>, f: spec_fn(char) -> bool, k: int)
    requires
        0 <= k <= s.len(),
        forall|j: int| 0 <= j < k ==> f(#[trigger] s[j]),
        k == s.len() || !f(s[k]),
    ensures
        run_len(s, f) == k,
    decreases s.len(),
{
    if k > 0 {
        assert(f(s[0]));
        let t = s.drop_first();
        assert forall|j: int| 0 <= j < k - 1 implies f(#[trigger] t[j]) by {
            assert(t[j] == s[j + 1]);
        }
        if k < s.len() {
            assert(t[k - 1] == s[k]);
        }
        lemma_run_len(t, f, k - 1);
    }
}

/// What the end of a run says: it lies within the text, everything before it satisfies `f`, and
/// the character there, if any, does not.
pub proof fn lemma_run_len_props(s: Seq<char>, f: spec_fn(char) -> bool)
    ensures
        0 <= run_len(s, f) <= s.len(),
        forall|j: int| 0 <= j < run_len(s, f) ==> f(#[trigger] s[j]),
        run_len(s, f) < s.len() ==> !f(s[run_len(s, f)]),
    decreases s.len(),
{
    if s.len() > 0 && f(s[0]) {
        let t = s.drop_first();
        lemma_run_len_props(t, f);
        assert forall|j: int| 0 <= j < run_len(s, f) implies f(#[trigger] s[j]) by {
            if j > 0 {
                assert(t[j - 1] == s[j]);
            }
        }
        if run_len(s, f) < s.len() {
            assert(t[run_len(t, f)] == s[run_len(s, f)]);
        }
    }
}

/// The position of the first `c`, or the length of the text.
pub open spec fn position(s: Seq<char>, c: char) -> int {
    run_len(s, other_than(c))
}

/// The characters other than `c`.
pub open spec fn other_than(c: char) -> spec_fn(char) -> bool {
    |x: char| x != c
}

/// The characters that do not satisfy `f`.
pub open spec fn outside(f: spec_fn(char) -> bool) -> spec_fn(char) -> bool {
    |x: char| !f(x)
}

pub fn find_char(s: &[char], c: char) -> (r: usize)
    ensures
        r == position(s@, c),
        r <= s@.len(),
        forall|j: int| 0 <= j < r ==> s@[j] != c,
        r < s@.len() ==> s@[r as int] == c,
{
    let ghost f = other_than(c);
    let mut i: usize = 0;
    while i < s.len() && s[i] != c
        invariant
            i <= s@.len(),
            forall|j: int| 0 <= j < i ==> s@[j] != c,
        decreases s@.len() - i,
    {
        i = i + 1;
    }
    proof {
        lemma_run_len(s@, f, i as int);
    }
    i
}

/// The text without the white space at its front.
pub open spec fn trimmed_start(s: Seq<char>) -> Seq<char> {
    s.skip(run_len(s, |c: char| is_space(c)))
}

/// The text without the white space at its end.
pub open spec fn trimmed_end(s: Seq<char>) -> Seq<char>
    decreases s.len(),
{
    if s.len() > 0 && is_space(s.last()) {
        trimmed_end(s.drop_last())
    } else {
        s
    }
}

/// The text without the white space at both ends.
pub open spec fn trimmed(s: Seq<char>) -> Seq<char> {
    trimmed_end(trimmed_start(s))
}

/// The text without the characters `c` at its end.
pub open spec fn without_end(s: Seq<char>, c: char) -> Seq<char>
    decreases s.len(),
{
    if s.len() > 0 && s.last() == c {
        without_end(s.drop_last(), c)
    } else {
        s
    }
}

pub fn trim_end_char(s: &[char], c: char) -> (r: &[char])
    ensures
        r@ == without_end(s@, c),
{
    let mut n: usize = s.len();
    assert(s@.take(n as int) =~= s@);
    while n > 0 && s[n - 1] == c
        invariant
            n <= s@.len(),
            without_end(s@.take(n as int), c) == without_end(s@, c),
        decreases n,
    {
        assert(s@.take(n as int).drop_last() =~= s@.take(n - 1));
        n = n - 1;
    }
    assert(s@.subrange(0, n as int) =~= s@.take(n as int));
    slice_subrange(s, 0, n)
}

pub fn trim_start(s: &[char]) -> (r: &[char])
    ensures
        r@ == trimmed_start(s@),
{
    let ghost f = |c: char| is_space(c);
    let mut i: usize = 0;
    while i < s.len() && space(s[i])
        invariant
            i <= s@.len(),
            forall|j: int| 0 <= j < i ==> is_space(#[trigger] s@[j]),
        decreases s@.len() - i,
    {
        i = i + 1;
    }
    proof {
        lemma_run_len(s@, f, i as int);
        assert(s@.subrange(i as int, s@.len() as int) =~= s@.skip(i as int));
    }
    slice_subrange(s, i, s.len())
}

pub fn trim_end(s: &[char]) -> (r: &[char])
    ensures
        r@ == trimmed_end(s@),
{
    let mut n: usize = s.len();
    assert(s@.take(n as int) =~= s@);
    while n > 0 && space(s[n - 1])
        invariant
            n <= s@.len(),
            trimmed_end(s@.take(n as int)) == trimmed_end(s@),
        decreases n,
    {
        assert(s@.take(n as int).drop_last() =~= s@.take(n - 1));
        n = n - 1;
    }
    assert(s@.subrange(0, n as int) =~= s@.take(n as int));
    slice_subrange(s, 0, n)
}

pub fn trim(s: &[char]) -> (r: &[char])
    ensures
        r@ == trimmed(s@),
{
    trim_end(trim_start(s))
}

/// The characters of a string without the white space at both ends.
pub fn trim_str(s: &str) -> (r: Vec<char>)
    ensures
        r@ == trimmed(s@),
{
    let cs = chars_of(s);
    copy(trim(cs.as_slice()))
}

/// A copy of the characters.
pub fn copy(s: &[char]) -> (r: Vec<char>)
    ensures
        r@ == s@,
{
    let mut out: Vec<char> = Vec::new();
    for i in 0..s.len()
        invariant
            out@ == s@.take(i as int),
    {
        out.push(s[i]);
        assert(out@ =~= s@.take(i + 1));
    }
    assert(s@.take(s@.len() as int) =~= s@);
    out
}

// ---------------------------------------------------------------------------
// Looking for a piece of text
// ---------------------------------------------------------------------------

/// `p` stands in `s` at position `i`.
pub open spec fn occurs_at(s: Seq<char>, p: Seq<char>, i: int) -> bool {
    0 <= i && i + p.len() <= s.len() && s.subrange(i, i + p.len()) == p
}

/// `p` stands somewhere in `s`.
pub open spec fn contains(s: Seq<char>, p: Seq<char>) -> bool {
    exists|i: int| #[trigger] occurs_at(s, p, i)
}

/// `i` is the first position at which `p` stands in `s`.
pub open spec fn first_at(s: Seq<char>, p: Seq<char>, i: int) -> bool {
    occurs_at(s, p, i) && forall|j: int| 0 <= j < i ==> !#[trigger] occurs_at(s, p, j)
}

/// `s` begins with `p`.
pub open spec fn has_prefix(s: Seq<char>, p: Seq<char>) -> bool {
    occurs_at(s, p, 0)
}

/// `s` ends with `p`.
pub open spec fn has_suffix(s: Seq<char>, p: Seq<char>) -> bool {
    occurs_at(s, p, s.len() - p.len())
}

/// The first position at which `p` stands in `s`, where it stands there at all.
pub open spec fn place_of(s: Seq<char>, p: Seq<char>) -> int {
    choose|i: int| first_at(s, p, i)
}

pub proof fn lemma_place_of(s: Seq<char>, p: Seq<char>, i: int)
    requires
        first_at(s, p, i),
    ensures
        place_of(s, p) == i,
        contains(s, p),
{
    let j = place_of(s, p);
    assert(first_at(s, p, j));
    assert(occurs_at(s, p, i) && occurs_at(s, p, j));
}

/// The digits at the front of a text.
pub open spec fn leading_digits(s: Seq<char>) -> Seq<char> {
    s.take(run_len(s, |c: char| is_digit(c)))
}

/// The digits at the front of a text.
pub fn digits_in_front(s: &[char]) -> (r: &[char])
    ensures
        r@ == leading_digits(s@),
{
    let ghost f = |c: char| is_digit(c);
    let mut i: usize = 0;
    while i < s.len() && digit(s[i])
        invariant
            i <= s@.len(),
            forall|j: int| 0 <= j < i ==> is_digit(#[trigger] s@[j]),
        decreases s@.len() - i,
    {
        i = i + 1;
    }
    proof {
        lemma_run_len(s@, f, i as int);
        assert(s@.subrange(0, i as int) =~= s@.take(i as int));
    }
    slice_subrange(s, 0, i)
}

pub fn stands_at(s: &[char], p: &[char], i: usize) -> (r: bool)
    ensures
        r == occurs_at(s@, p@, i as int),
{
    if i > s.len() || p.len() > s.len() - i {
        return false;
    }
    for k in 0..p.len()
        invariant
            i + p@.len() <= s@.len() <= usize::MAX,
            forall|j: int| 0 <= j < k ==> s@[i + j] == p@[j],
    {
        if s[i + k] != p[k] {
            assert(s@.subrange(i as int, i + p@.len())[k as int] == s@[i + k]);
            return false;
        }
    }
    assert(s@.subrange(i as int, i + p@.len()) =~= p@);
    true
}

pub fn find(s: &[char], p: &[char]) -> (r: Option<usize>)
    ensures
        match r {
            Some(i) => first_at(s@, p@, i as int) && i + p@.len() <= s@.len(),
            None => !contains(s@, p@),
        },
{
    if p.len() > s.len() {
        return None;
    }
    let last: usize = s.len() - p.len();
    let mut i: usize = 0;
    while i <= last
        invariant
            last == s@.len() - p@.len(),
            0 <= i <= last + 1,
            last < usize::MAX || i <= last,
            forall|j: int| 0 <= j < i ==> !#[trigger] occurs_at(s@, p@, j),
        decreases last + 1 - i,
    {
        if stands_at(s, p, i) {
            return Some(i);
        }
        if i == last {
            return None;
        }
        i = i + 1;
    }
    None
}

pub fn contains_text(s: &[char], p: &[char]) -> (r: bool)
    ensures
        r == contains(s@, p@),
{
    match find(s, p) {
        Some(_) => true,
        None => false,
    }
}

pub fn starts_with(s: &[char], p: &str) -> (r: bool)
    ensures
        r == has_prefix(s@, p@),
{
    stands_at(s, chars_of(p).as_slice(), 0)
}

pub fn ends_with(s: &[char], p: &str) -> (r: bool)
    ensures
        r == has_suffix(s@, p@),
{
    let pc = chars_of(p);
    if pc.len() > s.len() {
        return false;
    }
    stands_at(s, pc.as_slice(), s.len() - pc.len())
}

/// Whether a text holds a character.
pub fn has_char(s: &[char], c: char) -> (r: bool)
    ensures
        r == s@.contains(c),
{
    let i = find_char(s, c);
    if i < s.len() {
        assert(s@[i as int] == c);
        true
    } else {
        false
    }
}

// ---------------------------------------------------------------------------
// Splitting and joining
// ---------------------------------------------------------------------------

/// The pieces of a text between the characters that satisfy `sep`: one more than there are such
/// characters.
pub open spec fn split_by(s: Seq<char>, sep: spec_fn(char) -> bool) -> Seq<Seq<char>>
    decreases s.len(),
{
    let n = run_len(s, outside(sep));
    if n >= s.len() {
        seq![s]
    } else {
        proof {
            lemma_run_len_props(s, outside(sep));
        }
        seq![s.take(n)] + split_by(s.skip(n + 1), sep)
    }
}

/// One step of splitting at the first separator.
pub proof fn lemma_split_step(s: Seq<char>, sep: spec_fn(char) -> bool, i: int, k: int)
    requires
        0 <= i <= k <= s.len(),
        forall|j: int| i <= j < k ==> !sep(#[trigger] s[j]),
        k == s.len() || sep(s[k]),
    ensures
        k == s.len() ==> split_by(s.skip(i), sep) == seq![s.subrange(i, k)],
        k < s.len() ==> split_by(s.skip(i), sep) == seq![s.subrange(i, k)] + split_by(
            s.skip(k + 1),
            sep,
        ),
{
    let t = s.skip(i);
    assert forall|j: int| 0 <= j < k - i implies outside(sep)(#[trigger] t[j]) by {
        assert(t[j] == s[i + j]);
    }
    if k < s.len() {
        assert(t[k - i] == s[k]);
    }
    lemma_run_len(t, outside(sep), k - i);
    if k < s.len() {
        assert(t.take(k - i) =~= s.subrange(i, k));
        assert(t.skip(k - i + 1) =~= s.skip(k + 1));
    } else {
        assert(t =~= s.subrange(i, k));
    }
}

/// Equal to `c`.
pub open spec fn equal_to(c: char) -> spec_fn(char) -> bool {
    |x: char| x == c
}

/// The pieces of a text between the occurrences of `c`.
pub open spec fn split_on(s: Seq<char>, c: char) -> Seq<Seq<char>> {
    split_by(s, equal_to(c))
}

pub fn split_char(s: &[char], c: char) -> (r: Vec<Vec<char>>)
    ensures
        rows(r@) == split_on(s@, c),
{
    broadcast use lemma_rows_push;

    let ghost sep = equal_to(c);
    let mut out: Vec<Vec<char>> = Vec::new();
    let mut i: usize = 0;
    assert(s@.skip(0) =~= s@);
    assert(rows(out@) =~= Seq::<Seq<char>>::empty());
    assert(Seq::<Seq<char>>::empty() + split_by(s@, sep) =~= split_by(s@, sep));
    loop
        invariant
            0 <= i <= s@.len(),
            sep == equal_to(c),
            split_by(s@, sep) == rows(out@) + split_by(s@.skip(i as int), sep),
        decreases s@.len() - i,
    {
        let mut k: usize = i;
        while k < s.len() && s[k] != c
            invariant
                i <= k <= s@.len(),
                forall|j: int| i <= j < k ==> s@[j] != c,
            decreases s@.len() - k,
        {
            k = k + 1;
        }
        proof {
            lemma_split_step(s@, sep, i as int, k as int);
        }
        let ghost before = rows(out@);
        out.push(copy(slice_subrange(s, i, k)));
        assert(rows(out@) =~= before + seq![s@.subrange(i as int, k as int)]);
        if k >= s.len() {
            return out;
        }
        assert(split_by(s@, sep) =~= rows(out@) + split_by(s@.skip(k + 1), sep));
        i = k + 1;
    }
}

/// The words of a text: its maximal runs of characters that are not white space.
pub open spec fn words_of(s: Seq<char>) -> Seq<Seq<char>> {
    nonempty(split_by(s, |c: char| is_space(c)))
}

/// The pieces that hold a character.
pub open spec fn nonempty(v: Seq<Seq<char>>) -> Seq<Seq<char>> {
    v.filter(|w: Seq<char>| w.len() > 0)
}

pub fn words(s: &[char]) -> (r: Vec<Vec<char>>)
    ensures
        rows(r@) == words_of(s@),
{
    broadcast use lemma_rows_push;

    let ghost sep = |c: char| is_space(c);
    let ghost mut all: Seq<Seq<char>> = seq![];
    let mut out: Vec<Vec<char>> = Vec::new();
    let mut i: usize = 0;
    assert(s@.skip(0) =~= s@);
    assert(rows(out@) =~= nonempty(all));
    assert(all + split_by(s@, sep) =~= split_by(s@, sep));
    loop
        invariant
            0 <= i <= s@.len(),
            sep == (|c: char| is_space(c)),
            rows(out@) == nonempty(all),
            split_by(s@, sep) == all + split_by(s@.skip(i as int), sep),
        decreases s@.len() - i,
    {
        let mut k: usize = i;
        while k < s.len() && !space(s[k])
            invariant
                i <= k <= s@.len(),
                forall|j: int| i <= j < k ==> !is_space(#[trigger] s@[j]),
            decreases s@.len() - k,
        {
            k = k + 1;
        }
        proof {
            lemma_split_step(s@, sep, i as int, k as int);
        }
        let ghost piece = s@.subrange(i as int, k as int);
        let ghost before = all;
        proof {
            all = all.push(piece);
            assert(all =~= before + seq![piece]);
            before.lemma_filter_push(piece, |w: Seq<char>| w.len() > 0);
        }
        if k > i {
            out.push(copy(slice_subrange(s, i, k)));
        }
        assert(rows(out@) =~= nonempty(all));
        if k >= s.len() {
            return out;
        }
        assert(split_by(s@, sep) =~= all + split_by(s@.skip(k + 1), sep));
        i = k + 1;
    }
}

/// The lines of a text: each ends with a line feed, which a carriage return may precede, and
/// neither belongs to it; the last line may go without.
pub open spec fn lines_of(s: Seq<char>) -> Seq<Seq<char>>
    decreases s.len(),
{
    let n = position(s, '\n');
    if s.len() == 0 {
        seq![]
    } else if n >= s.len() {
        seq![s]
    } else {
        proof {
            lemma_run_len_props(s, other_than('\n'));
        }
        seq![without_return(s.take(n))] + lines_of(s.skip(n + 1))
    }
}

/// The line without a carriage return at its end.
pub open spec fn without_return(s: Seq<char>) -> Seq<char> {
    if s.len() > 0 && s.last() == '\r' {
        s.drop_last()
    } else {
        s
    }
}

pub fn lines(s: &[char]) -> (r: Vec<Vec<char>>)
    ensures
        rows(r@) == lines_of(s@),
{
    broadcast use lemma_rows_push;

    let mut out: Vec<Vec<char>> = Vec::new();
    let mut i: usize = 0;
    assert(s@.skip(0) =~= s@);
    assert(rows(out@) + lines_of(s@) =~= lines_of(s@));
    while i < s.len()
        invariant
            0 <= i <= s@.len(),
            lines_of(s@) == rows(out@) + lines_of(s@.skip(i as int)),
        decreases s@.len() - i,
    {
        let rest = slice_subrange(s, i, s.len());
        assert(rest@ =~= s@.skip(i as int));
        let n = find_char(rest, '\n');
        let ghost before = rows(out@);
        if n >= rest.len() {
            out.push(copy(rest));
            assert(rows(out@) =~= before + seq![rest@]);
            return out;
        }
        let end: usize = if n > 0 && rest[n - 1] == '\r' {
            n - 1
        } else {
            n
        };
        assert(rest@.subrange(0, end as int) =~= without_return(rest@.take(n as int)));
        out.push(copy(slice_subrange(rest, 0, end)));
        assert(rest@.skip(n + 1) =~= s@.skip(i + n + 1));
        assert(rows(out@) =~= before + seq![without_return(rest@.take(n as int))]);
        assert(lines_of(s@) =~= rows(out@) + lines_of(s@.skip(i + n + 1)));
        i = i + n + 1;
    }
    assert(s@.skip(i as int) =~= Seq::<char>::empty());
    assert(rows(out@) + Seq::<Seq<char>>::empty() =~= rows(out@));
    out
}

/// The pieces with `sep` between each two.
pub open spec fn joined(parts: Seq<Seq<char>>, sep: Seq<char>) -> Seq<char>
    decreases parts.len(),
{
    if parts.len() == 0 {
        seq![]
    } else if parts.len() == 1 {
        parts[0]
    } else {
        joined(parts.drop_last(), sep) + sep + parts.last()
    }
}

pub fn join(parts: &Vec<String>, sep: &str) -> (r: String)
    ensures
        r@ == joined(texts(parts@), sep@),
{
    let mut out = String::new();
    let ghost all = texts(parts@);
    for i in 0..parts.len()
        invariant
            all == texts(parts@),
            out@ == joined(all.take(i as int), sep@),
    {
        assert(all.take(i + 1).drop_last() =~= all.take(i as int));
        assert(all.take(i + 1).last() == parts@[i as int]@);
        if i > 0 {
            out.append(sep);
        } else {
            assert(out@ + parts@[0]@ =~= parts@[0]@);
        }
        out.append(parts[i].as_str());
    }
    assert(all.take(parts@.len() as int) =~= all);
    out
}

/// Joining, seen from the front.
pub proof fn lemma_joined_front(parts: Seq<Seq<char>>, sep: Seq<char>)
    requires
        parts.len() >= 2,
    ensures
        joined(parts, sep) == parts[0] + sep + joined(parts.drop_first(), sep),
    decreases parts.len(),
{
    let rest = parts.drop_first();
    if parts.len() == 2 {
        assert(parts.drop_last() =~= seq![parts[0]]);
        assert(rest =~= seq![parts[1]]);
        assert(joined(parts.drop_last(), sep) == parts[0]);
        assert(joined(rest, sep) == parts[1]);
    } else {
        lemma_joined_front(parts.drop_last(), sep);
        assert(parts.drop_last().drop_first() =~= rest.drop_last());
        assert(joined(parts, sep) =~= parts[0] + sep + (joined(rest.drop_last(), sep) + sep
            + rest.last()));
    }
}

/// Pieces without the separator, joined by it, split back into the same pieces.
pub proof fn lemma_split_joined(parts: Seq<Seq<char>>, c: char)
    requires
        parts.len() > 0,
        forall|i: int| 0 <= i < parts.len() ==> !(#[trigger] parts[i]).contains(c),
    ensures
        split_on(joined(parts, seq![c]), c) == parts,
    decreases parts.len(),
{
    let sep = equal_to(c);
    let s = joined(parts, seq![c]);
    let n = parts[0].len() as int;
    assert(s.skip(0) =~= s);
    assert forall|j: int| 0 <= j < n implies parts[0][j] != c by {
        assert(parts[0].contains(parts[0][j]));
    }
    if parts.len() == 1 {
        assert(s == parts[0]);
        lemma_split_step(s, sep, 0, n);
        assert(s.subrange(0, n) =~= parts[0]);
        assert(seq![parts[0]] =~= parts);
    } else {
        lemma_joined_front(parts, seq![c]);
        let rest = parts.drop_first();
        assert forall|i: int| 0 <= i < rest.len() implies !(#[trigger] rest[i]).contains(c) by {
            assert(rest[i] == parts[i + 1]);
        }
        lemma_split_joined(rest, c);
        assert forall|j: int| 0 <= j < n implies !sep(#[trigger] s[j]) by {
            assert(s[j] == parts[0][j]);
        }
        lemma_split_step(s, sep, 0, n);
        assert(s.subrange(0, n) =~= parts[0]);
        assert(s.skip(n + 1) =~= joined(rest, seq![c]));
        assert(seq![parts[0]] + rest =~= parts);
    }
}

/// A line with its line feed in front of a text is the first of the text's lines.
pub proof fn lemma_lines_step(line: Seq<char>, rest: Seq<char>)
    requires
        !line.contains('\n'),
        line.len() > 0 ==> line.last() != '\r',
    ensures
        lines_of(line + seq!['\n'] + rest) == seq![line] + lines_of(rest),
{
    let s = line + seq!['\n'] + rest;
    assert forall|j: int| 0 <= j < line.len() implies other_than('\n')(#[trigger] s[j]) by {
        assert(line.contains(line[j]));
    }
    lemma_run_len(s, other_than('\n'), line.len() as int);
    assert(s.take(line.len() as int) =~= line);
    assert(s.skip(line.len() as int + 1) =~= rest);
}

/// A text that neither begins nor ends with white space has nothing to trim.
pub proof fn lemma_nothing_to_trim(s: Seq<char>)
    requires
        s.len() > 0 ==> !is_space(s[0]) && !is_space(s.last()),
    ensures
        trimmed(s) == s,
{
    lemma_run_len(s, |c: char| is_space(c), 0);
    assert(s.skip(0) =~= s);
}

// ---------------------------------------------------------------------------
// Rewriting character by character
// ---------------------------------------------------------------------------

/// The text in which each character has become what `f` makes of it.
pub open spec fn rewritten(s: Seq<char>, f: spec_fn(char) -> Seq<char>) -> Seq<char>
    decreases s.len(),
{
    if s.len() == 0 {
        seq![]
    } else {
        rewritten(s.drop_last(), f) + f(s.last())
    }
}

pub proof fn lemma_rewritten_step(s: Seq<char>, f: spec_fn(char) -> Seq<char>, i: int)
    requires
        0 <= i < s.len(),
    ensures
        rewritten(s.take(i + 1), f) == rewritten(s.take(i), f) + f(s[i]),
{
    assert(s.take(i + 1).drop_last() =~= s.take(i));
}

/// `c` becomes `with`; every other character stays.
pub open spec fn swap_for(c: char, with: Seq<char>) -> spec_fn(char) -> Seq<char> {
    |x: char| if x == c { with } else { seq![x] }
}

/// The text with every `c` replaced by `with`.
pub open spec fn replaced(s: Seq<char>, c: char, with: Seq<char>) -> Seq<char> {
    rewritten(s, swap_for(c, with))
}

pub fn replace(s: &[char], c: char, with: &[char]) -> (r: Vec<char>)
    ensures
        r@ == replaced(s@, c, with@),
{
    let ghost f = swap_for(c, with@);
    let mut out: Vec<char> = Vec::new();
    for i in 0..s.len()
        invariant
            f == swap_for(c, with@),
            out@ == rewritten(s@.take(i as int), f),
    {
        proof {
            lemma_rewritten_step(s@, f, i as int);
        }
        if s[i] == c {
            append(&mut out, with);
        } else {
            out.push(s[i]);
            assert(out@ =~= rewritten(s@.take(i as int), f) + seq![s@[i as int]]);
        }
    }
    assert(s@.take(s@.len() as int) =~= s@);
    out
}

/// Adds the characters to the end.
pub fn append(out: &mut Vec<char>, s: &[char])
    ensures
        final(out)@ == old(out)@ + s@,
{
    let ghost before = out@;
    for i in 0..s.len()
        invariant
            out@ == before + s@.take(i as int),
    {
        out.push(s[i]);
        assert(out@ =~= before + s@.take(i + 1));
    }
    assert(s@.take(s@.len() as int) =~= s@);
}

// ---------------------------------------------------------------------------
// Order
// ---------------------------------------------------------------------------

/// Dictionary order by code point.
pub open spec fn text_le(a: Seq<char>, b: Seq<char>) -> bool
    decreases a.len(),
{
    if a.len() == 0 {
        true
    } else if b.len() == 0 {
        false
    } else if a[0] != b[0] {
        a[0] < b[0]
    } else {
        text_le(a.drop_first(), b.drop_first())
    }
}

pub proof fn lemma_text_le_total(a: Seq<char>, b: Seq<char>)
    ensures
        text_le(a, b) || text_le(b, a),
    decreases a.len(),
{
    if a.len() > 0 && b.len() > 0 && a[0] == b[0] {
        lemma_text_le_total(a.drop_first(), b.drop_first());
    }
}

pub proof fn lemma_text_le_trans(a: Seq<char>, b: Seq<char>, c: Seq<char>)
    requires
        text_le(a, b),
        text_le(b, c),
    ensures
        text_le(a, c),
    decreases a.len(),
{
    if a.len() > 0 && a[0] == b[0] && b[0] == c[0] {
        lemma_text_le_trans(a.drop_first(), b.drop_first(), c.drop_first());
    }
}

pub proof fn lemma_text_le_antisym(a: Seq<char>, b: Seq<char>)
    requires
        text_le(a, b),
        text_le(b, a),
    ensures
        a == b,
    decreases a.len(),
{
    if a.len() > 0 && b.len() > 0 {
        lemma_text_le_antisym(a.drop_first(), b.drop_first());
        assert(a =~= seq![a[0]] + a.drop_first());
        assert(b =~= seq![b[0]] + b.drop_first());
    } else {
        assert(a =~= b);
    }
}

pub fn not_after(a: &[char], b: &[char]) -> (r: bool)
    ensures
        r == text_le(a@, b@),
{
    let mut i: usize = 0;
    assert(a@.skip(0) =~= a@);
    assert(b@.skip(0) =~= b@);
    while i < a.len() && i < b.len() && a[i] == b[i]
        invariant
            i <= a@.len(),
            i <= b@.len(),
            text_le(a@.skip(i as int), b@.skip(i as int)) == text_le(a@, b@),
        decreases a@.len() - i,
    {
        assert(a@.skip(i as int).drop_first() =~= a@.skip(i + 1));
        assert(b@.skip(i as int).drop_first() =~= b@.skip(i + 1));
        i = i + 1;
    }
    if i >= a.len() {
        true
    } else if i >= b.len() {
        false
    } else {
        a[i] < b[i]
    }
}

// ---------------------------------------------------------------------------
// Laws
// ---------------------------------------------------------------------------

/// A text without a separator is a single piece.
pub proof fn what_has_no_separator_is_one_piece(s: Seq<char>, sep: spec_fn(char) -> bool)
    requires
        forall|i: int| 0 <= i < s.len() ==> !sep(#[trigger] s[i]),
    ensures
        split_by(s, sep) == seq![s],
{
    assert(s.skip(0) =~= s);
    lemma_split_step(s, sep, 0, s.len() as int);
    assert(s.subrange(0, s.len() as int) =~= s);
}

/// A separator parts what stands on its two sides: the pieces are those of the front and those of the
/// back.
pub proof fn separators_part(
    a: Seq<char>,
    b: Seq<char>,
    c: char,
    sep: spec_fn(char) -> bool,
)
    requires
        sep(c),
    ensures
        split_by(a + seq![c] + b, sep) == split_by(a, sep) + split_by(b, sep),
    decreases a.len(),
{
    let s = a + seq![c] + b;
    let n = run_len(a, outside(sep));
    lemma_run_len_props(a, outside(sep));
    assert(s.skip(0) =~= s);
    assert(a.skip(0) =~= a);
    assert forall|j: int| 0 <= j < n implies !sep(#[trigger] s[j]) by {
        assert(outside(sep)(a[j]));
    }
    assert forall|j: int| 0 <= j < n implies !sep(#[trigger] a[j]) by {
        assert(outside(sep)(a[j]));
    }
    if n < a.len() {
        assert(!outside(sep)(a[n]));
    }
    lemma_split_step(s, sep, 0, n);
    lemma_split_step(a, sep, 0, n);
    assert(s.subrange(0, n) =~= a.subrange(0, n));
    if n < a.len() {
        let rest = a.skip(n + 1);
        separators_part(rest, b, c, sep);
        assert(s.skip(n + 1) =~= rest + seq![c] + b);
        assert(seq![a.subrange(0, n)] + (split_by(rest, sep) + split_by(b, sep)) =~= seq![
            a.subrange(0, n),
        ] + split_by(rest, sep) + split_by(b, sep));
    } else {
        assert(s.skip(n + 1) =~= b);
    }
}

/// The pieces of a text, joined by the separator, are the text again, and none of them holds it.
pub proof fn pieces_join_to_the_text(s: Seq<char>, c: char)
    ensures
        split_on(s, c).len() > 0,
        joined(split_on(s, c), seq![c]) == s,
        forall|i: int| 0 <= i < split_on(s, c).len() ==> !(#[trigger] split_on(s, c)[i]).contains(c),
        forall|i: int, d: char|
            0 <= i < split_on(s, c).len() && (#[trigger] split_on(s, c)[i]).contains(d)
                ==> #[trigger] s.contains(d),
    decreases s.len(),
{
    let sep = equal_to(c);
    let n = run_len(s, outside(sep));
    lemma_run_len_props(s, outside(sep));
    let all = split_on(s, c);
    if n >= s.len() {
        assert(all == seq![s]);
        assert(joined(all, seq![c]) == s);
        assert forall|i: int| 0 <= i < s.len() implies s[i] != c by {
            assert(outside(sep)(s[i]));
        }
    } else {
        let first = s.take(n);
        let tail = s.skip(n + 1);
        pieces_join_to_the_text(tail, c);
        let rest = split_on(tail, c);
        assert(all == seq![first] + rest);
        assert(all.drop_first() =~= rest);
        lemma_joined_front(all, seq![c]);
        assert(first + seq![c] + tail =~= s);
        assert forall|i: int| 0 <= i < all.len() implies !(#[trigger] all[i]).contains(c) by {
            if i == 0 {
                assert forall|j: int| 0 <= j < n implies first[j] != c by {
                    assert(outside(sep)(s[j]));
                }
            } else {
                assert(all[i] == rest[i - 1]);
            }
        }
        assert forall|i: int, d: char| 0 <= i < all.len() && (#[trigger] all[i]).contains(
            d,
        ) implies #[trigger] s.contains(d) by {
            if i == 0 {
                let j = choose|j: int| 0 <= j < first.len() && first[j] == d;
                assert(s[j] == d);
            } else {
                assert(all[i] == rest[i - 1]);
                assert(tail.contains(d));
                let j = choose|j: int| 0 <= j < tail.len() && tail[j] == d;
                assert(s[n + 1 + j] == d);
            }
        }
    }
}

/// A line feed ends a line: the lines of what stands behind it are the last lines of the whole text,
/// and in front of them stand lines that do not depend on it.
pub proof fn a_line_feed_parts_the_lines(a: Seq<char>, b: Seq<char>) -> (front: Seq<Seq<char>>)
    ensures
        lines_of(a + seq!['\n'] + b) == front + lines_of(b),
        front == lines_of(a + seq!['\n']),
    decreases a.len(),
{
    let s = a + seq!['\n'] + b;
    let t = a + seq!['\n'];
    let n = position(a, '\n');
    lemma_run_len_props(a, other_than('\n'));
    if n < a.len() {
        assert(!other_than('\n')(a[n]));
    }
    assert forall|j: int| 0 <= j < n implies other_than('\n')(#[trigger] s[j]) by {
        assert(other_than('\n')(a[j]));
    }
    assert forall|j: int| 0 <= j < n implies other_than('\n')(#[trigger] t[j]) by {
        assert(other_than('\n')(a[j]));
    }
    lemma_run_len(s, other_than('\n'), n);
    lemma_run_len(t, other_than('\n'), n);
    assert(s.take(n) =~= a.take(n));
    assert(t.take(n) =~= a.take(n));
    let first = without_return(a.take(n));
    if n < a.len() {
        let rest = a.skip(n + 1);
        let more = a_line_feed_parts_the_lines(rest, b);
        assert(s.skip(n + 1) =~= rest + seq!['\n'] + b);
        assert(t.skip(n + 1) =~= rest + seq!['\n']);
        assert(seq![first] + (more + lines_of(b)) =~= seq![first] + more + lines_of(b));
        seq![first] + more
    } else {
        assert(s.skip(n + 1) =~= b);
        assert(t.skip(n + 1) =~= Seq::<char>::empty());
        assert(lines_of(t.skip(n + 1)) =~= Seq::<Seq<char>>::empty());
        assert(lines_of(t) =~= seq![first]);
        seq![first]
    }
}

/// Whatever stands in front of it and behind it, a line between two line feeds is one of the lines.
pub proof fn lines_stand_between_line_feeds(a: Seq<char>, line: Seq<char>, b: Seq<char>)
    requires
        !line.contains('\n'),
        line.len() > 0 ==> line.last() != '\r',
    ensures
        lines_of(a + seq!['\n'] + line + seq!['\n'] + b).contains(line),
{
    let rest = line + seq!['\n'] + b;
    let front = a_line_feed_parts_the_lines(a, rest);
    lemma_lines_step(line, b);
    let s = a + seq!['\n'] + line + seq!['\n'] + b;
    assert(s =~= a + seq!['\n'] + rest);
    assert(lines_of(s)[front.len() as int] == line);
}

/// Replacing one character by another keeps every place: the character goes, all others stay.
pub proof fn replacing_keeps_places(s: Seq<char>, c: char, d: char)
    ensures
        replaced(s, c, seq![d]) == s.map_values(
            |x: char|
                if x == c {
                    d
                } else {
                    x
                },
        ),
    decreases s.len(),
{
    let f = |x: char|
        if x == c {
            d
        } else {
            x
        };
    if s.len() > 0 {
        replacing_keeps_places(s.drop_last(), c, d);
        assert(s.map_values(f) =~= s.drop_last().map_values(f).push(f(s.last())));
        assert(replaced(s, c, seq![d]) =~= s.map_values(f));
    } else {
        assert(replaced(s, c, seq![d]) =~= s.map_values(f));
    }
}

/// Dropping a character leaves the others, in order.
pub proof fn dropping_leaves_the_others(s: Seq<char>, c: char)
    ensures
        replaced(s, c, seq![]) == s.filter(|x: char| x != c),
    decreases s.len(),
{
    reveal(Seq::filter);
    let keep = |x: char| x != c;
    if s.len() > 0 {
        dropping_leaves_the_others(s.drop_last(), c);
        assert(replaced(s, c, seq![]) =~= s.filter(keep));
    } else {
        assert(replaced(s, c, seq![]) =~= s.filter(keep));
    }
}

/// What stands in an ASCII text is found in it, case aside.
pub proof fn parts_are_found_in_any_case(
    front: Seq<char>,
    part: Seq<char>,
    back: Seq<char>,
    needle: Seq<char>,
)
    requires
        all_ascii(front),
        all_ascii(part),
        all_ascii(back),
        folded(part) == folded(needle),
    ensures
        contains(folded(front + part + back), folded(needle)),
{
    let s = front + part + back;
    assert(all_ascii(s)) by {
        assert forall|i: int| 0 <= i < s.len() implies #[trigger] s[i] < '\u{80}' by {
            if i < front.len() {
                assert(s[i] == front[i]);
            } else if i < front.len() + part.len() {
                assert(s[i] == part[i - front.len()]);
            } else {
                assert(s[i] == back[i - front.len() - part.len()]);
            }
        }
    }
    let n = front.len() as int;
    let l = ascii_lower(s);
    assert(l.subrange(n, n + part.len()) =~= ascii_lower(part));
    assert(occurs_at(folded(s), folded(needle), n));
}

/// ASCII letters are compared without their case: two ASCII texts that differ in nothing else are the
/// same in lower case, and only such texts are.
pub proof fn folding_forgets_the_case_of_ascii(a: Seq<char>, b: Seq<char>)
    requires
        all_ascii(a),
        all_ascii(b),
    ensures
        folded(a) == folded(b) <==> {
            &&& a.len() == b.len()
            &&& forall|i: int|
                0 <= i < a.len() ==> {
                    ||| #[trigger] a[i] == b[i]
                    ||| 'A' <= a[i] <= 'Z' && b[i] as int == a[i] as int + 32
                    ||| 'A' <= b[i] <= 'Z' && a[i] as int == b[i] as int + 32
                }
        },
{
    let x = ascii_lower(a);
    let y = ascii_lower(b);
    if folded(a) == folded(b) {
        assert(x.len() == y.len());
        assert forall|i: int| 0 <= i < a.len() implies {
            ||| #[trigger] a[i] == b[i]
            ||| 'A' <= a[i] <= 'Z' && b[i] as int == a[i] as int + 32
            ||| 'A' <= b[i] <= 'Z' && a[i] as int == b[i] as int + 32
        } by {
            assert(x[i] == y[i]);
            assert(x[i] == ascii_lower_char(a[i]) && y[i] == ascii_lower_char(b[i]));
        }
    }
    if a.len() == b.len() && forall|i: int|
        0 <= i < a.len() ==> {
            ||| #[trigger] a[i] == b[i]
            ||| 'A' <= a[i] <= 'Z' && b[i] as int == a[i] as int + 32
            ||| 'A' <= b[i] <= 'Z' && a[i] as int == b[i] as int + 32
        } {
        assert forall|i: int| 0 <= i < a.len() implies #[trigger] x[i] == y[i] by {
            assert(x[i] == ascii_lower_char(a[i]) && y[i] == ascii_lower_char(b[i]));
        }
        assert(x =~= y);
    }
}

/// Words with blanks between them are read back as the same words; white space round them does not
/// matter.
pub proof fn words_are_read_back(words: Seq<Seq<char>>)
    requires
        forall|i: int| 0 <= i < words.len() ==> is_word(#[trigger] words[i]),
    ensures
        words_of(joined(words, seq![' '])) == words,
        words_of(seq![' '] + joined(words, seq![' '])) == words,
    decreases words.len(),
{
    let sep = |c: char| is_space(c);
    let s = joined(words, seq![' ']);
    reveal(Seq::filter);
    let none = Seq::<char>::empty();
    what_has_no_separator_is_one_piece(none, sep);
    separators_part(none, s, ' ', sep);
    assert(none + seq![' '] + s =~= seq![' '] + s);
    let keep = |w: Seq<char>| w.len() > 0;
    Seq::filter_distributes_over_add(seq![none], split_by(s, sep), keep);
    let blank = seq![none];
    assert(blank.drop_last() =~= Seq::<Seq<char>>::empty());
    assert(blank.last() == none);
    assert(blank.drop_last().filter(keep).len() == 0);
    assert(blank.filter(keep) =~= Seq::<Seq<char>>::empty());
    assert(Seq::<Seq<char>>::empty() + words_of(s) =~= words_of(s));
    if words.len() == 0 {
        assert(s =~= none);
        assert(words_of(s) =~= words);
    } else {
        let last = words.last();
        assert(is_word(words[words.len() - 1]));
        what_has_no_separator_is_one_piece(last, sep);
        assert(seq![last].drop_last() =~= Seq::<Seq<char>>::empty());
        assert(seq![last].last() == last);
        assert(seq![last].filter(keep) =~= seq![last]);
        if words.len() == 1 {
            assert(seq![last] =~= words);
        } else {
            let front = words.drop_last();
            assert forall|i: int| 0 <= i < front.len() implies is_word(#[trigger] front[i]) by {
                assert(front[i] == words[i]);
            }
            words_are_read_back(front);
            let f = joined(front, seq![' ']);
            separators_part(f, last, ' ', sep);
            Seq::filter_distributes_over_add(split_by(f, sep), seq![last], keep);
            assert(front + seq![last] =~= words);
        }
    }
}

/// The text is a word: not empty, and without white space.
pub open spec fn is_word(w: Seq<char>) -> bool {
    w.len() > 0 && forall|i: int| 0 <= i < w.len() ==> !is_space(#[trigger] w[i])
}

/// What stands in a part of a text stands in the text.
pub proof fn parts_stand_in_the_whole(front: Seq<char>, part: Seq<char>, back: Seq<char>, p: Seq<char>)
    ensures
        contains(part, p) ==> contains(front + part + back, p),
        contains(part, part),
{
    assert(part.subrange(0, part.len() as int) =~= part);
    assert(occurs_at(part, part, 0));
    if contains(part, p) {
        let i = choose|i: int| occurs_at(part, p, i);
        let s = front + part + back;
        let n = front.len() as int;
        assert(s.subrange(n + i, n + i + p.len()) =~= part.subrange(i, i + p.len()));
        assert(occurs_at(s, p, n + i));
    }
}

} // verus!
