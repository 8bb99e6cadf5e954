//! Case-insensitive `*` patterns.

use vstd::prelude::*;

use crate::text::{folded, lower_of};

verus! {

/// The text matches the pattern: a star stands for any run of characters, also an empty one, and
/// every other character for itself.
pub open spec fn fits(p: Seq<char>, t: Seq<char>) -> bool
    decreases p.len() + t.len(),
{
    if p.len() == 0 {
        t.len() == 0
    } else if p[0] == '*' {
        fits(p.drop_first(), t) || (t.len() > 0 && fits(p, t.drop_first()))
    } else {
        t.len() > 0 && t[0] == p[0] && fits(p.drop_first(), t.drop_first())
    }
}

/// What is left of a text from a position on matches what is left of a pattern.
spec fn tail_matches(p: Seq<char>, t: Seq<char>, i: int, k: int) -> bool {
    fits(p.skip(i), t.skip(k))
}

/// From `k` on, some tail of the text matches the pattern from `i` on.
spec fn some_tail_matches(p: Seq<char>, t: Seq<char>, i: int, k: int) -> bool {
    exists|j: int| k <= j <= t.len() && #[trigger] tail_matches(p, t, i, j)
}

proof fn lemma_star(p: Seq<char>, t: Seq<char>, i: int, k: int)
    requires
        0 <= i < p.len(),
        0 <= k <= t.len(),
        p[i] == '*',
    ensures
        tail_matches(p, t, i, k) == some_tail_matches(p, t, i + 1, k),
    decreases t.len() - k,
{
    let q = p.skip(i);
    let u = t.skip(k);
    assert(q[0] == '*');
    assert(q.drop_first() =~= p.skip(i + 1));
    assert(tail_matches(p, t, i, k) == (tail_matches(p, t, i + 1, k) || (k < t.len()
        && tail_matches(p, t, i, k + 1)))) by {
        if k < t.len() {
            assert(u.drop_first() =~= t.skip(k + 1));
        }
    }
    if k < t.len() {
        lemma_star(p, t, i, k + 1);
        if some_tail_matches(p, t, i + 1, k + 1) {
            let j = choose|j: int| k + 1 <= j <= t.len() && #[trigger] tail_matches(p, t, i + 1, j);
            assert(some_tail_matches(p, t, i + 1, k));
        }
    }
    if some_tail_matches(p, t, i + 1, k) {
        let j = choose|j: int| k <= j <= t.len() && #[trigger] tail_matches(p, t, i + 1, j);
        if j > k {
            assert(some_tail_matches(p, t, i + 1, k + 1));
        }
    }
}

proof fn lemma_literal(p: Seq<char>, t: Seq<char>, i: int, k: int)
    requires
        0 <= i < p.len(),
        0 <= k <= t.len(),
        p[i] != '*',
    ensures
        tail_matches(p, t, i, k) == (k < t.len() && t[k] == p[i] && tail_matches(
            p,
            t,
            i + 1,
            k + 1,
        )),
{
    let q = p.skip(i);
    let u = t.skip(k);
    assert(q[0] == p[i]);
    assert(q.drop_first() =~= p.skip(i + 1));
    if k < t.len() {
        assert(u.drop_first() =~= t.skip(k + 1));
    }
}

/// A stretch of plain characters matches itself and nothing else.
proof fn lemma_stretch(p: Seq<char>, t: Seq<char>, i: int, k: int, m: int)
    requires
        0 <= i,
        0 <= m,
        i + m <= p.len(),
        0 <= k <= t.len(),
        forall|j: int| i <= j < i + m ==> p[j] != '*',
        tail_matches(p, t, i, k),
    ensures
        k + m <= t.len(),
        tail_matches(p, t, i + m, k + m),
    decreases m,
{
    if m > 0 {
        lemma_literal(p, t, i, k);
        lemma_stretch(p, t, i + 1, k + 1, m - 1);
    }
}

proof fn lemma_end(p: Seq<char>, t: Seq<char>, k: int)
    requires
        0 <= k <= t.len(),
    ensures
        tail_matches(p, t, p.len() as int, k) == (k == t.len()),
{
    assert(p.skip(p.len() as int).len() == 0);
    assert(t.skip(k).len() == t.len() - k);
}

/// Whether a text matches a pattern, both taken as they are.
fn match_chars(p: &[char], t: &[char]) -> (r: bool)
    ensures
        r == fits(p@, t@),
{
    let mut pi: usize = 0;
    let mut ti: usize = 0;
    let mut star: Option<(usize, usize)> = None;
    assert(p@.skip(0) =~= p@);
    assert(t@.skip(0) =~= t@);
    while ti < t.len()
        invariant
            pi <= p@.len(),
            ti <= t@.len(),
            star is None ==> (fits(p@, t@) == tail_matches(p@, t@, pi as int, ti as int)),
            star matches Some((sp, st)) ==> {
                &&& sp < pi
                &&& st <= ti
                &&& pi - (sp + 1) == ti - st
                &&& forall|j: int| sp < j < pi ==> p@[j] != '*'
                &&& fits(p@, t@) == some_tail_matches(p@, t@, sp + 1, st as int)
                &&& tail_matches(p@, t@, sp + 1, st as int) == tail_matches(
                    p@,
                    t@,
                    pi as int,
                    ti as int,
                )
            },
        decreases
                (match star {
                    None => t@.len() as int + 1,
                    Some((sp, st)) => t@.len() - st,
                }),
                (t@.len() - ti) + (p@.len() - pi),
    {
        if pi < p.len() && p[pi] == '*' {
            proof {
                lemma_star(p@, t@, pi as int, ti as int);
                if let Some((sp, st)) = star {
                    if some_tail_matches(p@, t@, sp + 1, st as int) {
                        let j = choose|j: int|
                            st <= j <= t@.len() && #[trigger] tail_matches(p@, t@, sp + 1, j);
                        lemma_stretch(p@, t@, sp + 1, j, pi - (sp + 1));
                        let n = j + (pi - (sp + 1));
                        lemma_star(p@, t@, pi as int, n);
                        let n2 = choose|n2: int|
                            n <= n2 <= t@.len() && #[trigger] tail_matches(p@, t@, pi + 1, n2);
                        assert(some_tail_matches(p@, t@, pi + 1, ti as int));
                    }
                    if some_tail_matches(p@, t@, pi + 1, ti as int) {
                        assert(tail_matches(p@, t@, sp + 1, st as int));
                    }
                }
            }
            star = Some((pi, ti));
            pi = pi + 1;
        } else if pi < p.len() && p[pi] == t[ti] {
            proof {
                lemma_literal(p@, t@, pi as int, ti as int);
            }
            pi = pi + 1;
            ti = ti + 1;
        } else {
            proof {
                if pi < p@.len() {
                    lemma_literal(p@, t@, pi as int, ti as int);
                } else {
                    lemma_end(p@, t@, ti as int);
                }
                assert(!tail_matches(p@, t@, pi as int, ti as int));
            }
            if let Some((sp, st)) = star {
                proof {
                    if some_tail_matches(p@, t@, sp + 1, st as int) {
                        let j = choose|j: int|
                            st <= j <= t@.len() && #[trigger] tail_matches(p@, t@, sp + 1, j);
                        assert(j != st);
                        assert(some_tail_matches(p@, t@, sp + 1, st + 1));
                    }
                    if some_tail_matches(p@, t@, sp + 1, st + 1) {
                        assert(some_tail_matches(p@, t@, sp + 1, st as int));
                    }
                }
                pi = sp + 1;
                ti = st + 1;
                star = Some((sp, st + 1));
            } else {
                return false;
            }
        }
    }
    proof {
        if let Some((sp, st)) = star {
            if some_tail_matches(p@, t@, sp + 1, st as int) {
                let j = choose|j: int|
                    st <= j <= t@.len() && #[trigger] tail_matches(p@, t@, sp + 1, j);
                lemma_stretch(p@, t@, sp + 1, j, pi - (sp + 1));
                assert(j == st);
            }
            if tail_matches(p@, t@, pi as int, ti as int) {
                assert(tail_matches(p@, t@, sp + 1, st as int));
            }
        }
    }
    assert(fits(p@, t@) == tail_matches(p@, t@, pi as int, ti as int));
    while pi < p.len() && p[pi] == '*'
        invariant
            pi <= p@.len(),
            ti == t@.len(),
            fits(p@, t@) == tail_matches(p@, t@, pi as int, ti as int),
        decreases p@.len() - pi,
    {
        proof {
            lemma_star(p@, t@, pi as int, ti as int);
            if some_tail_matches(p@, t@, pi + 1, ti as int) {
                let j = choose|j: int|
                    ti <= j <= t@.len() && #[trigger] tail_matches(p@, t@, pi + 1, j);
                assert(j == ti);
            }
            if tail_matches(p@, t@, pi + 1, ti as int) {
                assert(some_tail_matches(p@, t@, pi + 1, ti as int));
            }
        }
        pi = pi + 1;
    }
    proof {
        if pi < p@.len() {
            lemma_literal(p@, t@, pi as int, ti as int);
        } else {
            lemma_end(p@, t@, ti as int);
        }
    }
    pi == p.len()
}

/// The text matches the pattern, case aside.
pub open spec fn fits_any_case(pattern: Seq<char>, text: Seq<char>) -> bool {
    fits(folded(pattern), folded(text))
}

/// Case-insensitive `*` match of a whole text.
pub fn wildcard_match(pattern: &str, text: &str) -> (r: bool)
    ensures
        r == fits_any_case(pattern@, text@),
        crate::text::all_ascii(pattern@) && crate::text::all_ascii(text@) ==> r == fits(
            crate::text::ascii_lower(pattern@),
            crate::text::ascii_lower(text@),
        ),
{
    let p = lower_of(pattern);
    let t = lower_of(text);
    match_chars(p.as_slice(), t.as_slice())
}

// ---------------------------------------------------------------------------
// Laws
// ---------------------------------------------------------------------------

/// A pattern without a star matches exactly itself.
pub proof fn plain_pattern_matches_itself_only(p: Seq<char>, t: Seq<char>)
    requires
        !p.contains('*'),
    ensures
        fits(p, t) == (p == t),
    decreases p.len(),
{
    if p.len() == 0 {
        if t.len() == 0 {
            assert(p =~= t);
        }
    } else {
        assert(p[0] != '*') by {
            assert(p.contains(p[0]));
        }
        assert forall|c: char| p.drop_first().contains(c) implies p.contains(c) by {
            let i = choose|i: int| 0 <= i < p.drop_first().len() && p.drop_first()[i] == c;
            assert(p[i + 1] == c);
        }
        if t.len() > 0 {
            plain_pattern_matches_itself_only(p.drop_first(), t.drop_first());
            assert(p =~= seq![p[0]] + p.drop_first());
            assert(t =~= seq![t[0]] + t.drop_first());
        }
    }
}

/// A star alone matches every text.
pub proof fn star_matches_everything(t: Seq<char>)
    ensures
        fits(seq!['*'], t),
{
    let p = seq!['*'];
    assert(p.skip(0) =~= p);
    assert(t.skip(0) =~= t);
    lemma_star(p, t, 0, 0);
    lemma_end(p, t, t.len() as int);
    assert(tail_matches(p, t, 1, t.len() as int));
    assert(tail_matches(p, t, 0, 0));
}

/// A text with one star matches what begins with its front and ends with its back, the two apart.
pub proof fn one_star_matches_what_begins_and_ends(
    front: Seq<char>,
    back: Seq<char>,
    t: Seq<char>,
)
    requires
        !front.contains('*'),
        !back.contains('*'),
    ensures
        fits(front + seq!['*'] + back, t) == {
            &&& t.len() >= front.len() + back.len()
            &&& t.take(front.len() as int) == front
            &&& t.skip(t.len() - back.len()) == back
        },
{
    let p = front + seq!['*'] + back;
    let n = front.len() as int;
    let m = back.len() as int;
    assert(p.skip(0) =~= p);
    assert(t.skip(0) =~= t);
    assert(fits(p, t) == tail_matches(p, t, 0, 0));
    assert forall|j: int| 0 <= j < n implies p[j] != '*' by {
        assert(front.contains(front[j]));
    }
    assert forall|j: int| n + 1 <= j < n + 1 + m implies p[j] != '*' by {
        assert(p[j] == back[j - n - 1]);
        assert(back.contains(back[j - n - 1]));
    }
    if fits(p, t) {
        lemma_stretch_text(p, t, 0, 0, n);
        lemma_stretch(p, t, 0, 0, n);
        lemma_star(p, t, n, n);
        let k = choose|k: int| n <= k <= t.len() && #[trigger] tail_matches(p, t, n + 1, k);
        lemma_stretch_text(p, t, n + 1, k, m);
        lemma_stretch(p, t, n + 1, k, m);
        lemma_end(p, t, k + m);
        assert(t.take(n) =~= front) by {
            assert forall|j: int| 0 <= j < n implies t[j] == front[j] by {
                assert(t[0 + j] == p[0 + j]);
            }
        }
        assert(t.skip(t.len() - m) =~= back) by {
            assert forall|j: int| 0 <= j < m implies t[k + j] == back[j] by {
                assert(p[n + 1 + j] == back[j]);
            }
        }
    }
    if t.len() >= n + m && t.take(n) == front && t.skip(t.len() - m) == back {
        let k = t.len() - m;
        lemma_end(p, t, t.len() as int);
        assert forall|j: int| 0 <= j < m implies t[k + j] == #[trigger] p[n + 1 + j] by {
            assert(t.skip(k)[j] == back[j]);
        }
        lemma_stretch_back(p, t, n + 1, k, m);
        lemma_star(p, t, n, n);
        assert(some_tail_matches(p, t, n + 1, n));
        assert forall|j: int| 0 <= j < n implies t[0 + j] == #[trigger] p[0 + j] by {
            assert(t.take(n)[j] == front[j]);
        }
        lemma_stretch_back(p, t, 0, 0, n);
    }
}

/// A text between two stars matches whatever contains it.
pub proof fn starred_on_both_sides_matches_what_contains(w: Seq<char>, t: Seq<char>)
    requires
        !w.contains('*'),
    ensures
        fits(seq!['*'] + w + seq!['*'], t) == crate::text::contains(t, w),
{
    let p = seq!['*'] + w + seq!['*'];
    assert(p.skip(0) =~= p);
    assert(t.skip(0) =~= t);
    assert(fits(p, t) == tail_matches(p, t, 0, 0));
    lemma_star(p, t, 0, 0);
    assert forall|j: int| 1 <= j < 1 + w.len() implies p[j] != '*' by {
        assert(p[j] == w[j - 1]);
        assert(w.contains(w[j - 1]));
    }
    if fits(p, t) {
        let k = choose|k: int| 0 <= k <= t.len() && #[trigger] tail_matches(p, t, 1, k);
        lemma_stretch_text(p, t, 1, k, w.len() as int);
        assert(t.subrange(k, k + w.len()) =~= w) by {
            assert forall|j: int| 0 <= j < w.len() implies t[k + j] == w[j] by {
                assert(p[1 + j] == w[j]);
            }
        }
        assert(crate::text::occurs_at(t, w, k));
    }
    if crate::text::contains(t, w) {
        let k = choose|k: int| #[trigger] crate::text::occurs_at(t, w, k);
        let n = w.len() as int;
        lemma_star(p, t, 1 + n, k + n);
        lemma_end(p, t, t.len() as int);
        assert(tail_matches(p, t, 2 + n, t.len() as int));
        assert(some_tail_matches(p, t, 2 + n, k + n));
        assert forall|j: int| 0 <= j < n implies t[k + j] == #[trigger] p[1 + j] by {
            assert(t.subrange(k, k + w.len())[j] == t[k + j]);
        }
        lemma_stretch_back(p, t, 1, k, n);
        assert(some_tail_matches(p, t, 1, 0));
    }
}

proof fn lemma_stretch_text(p: Seq<char>, t: Seq<char>, i: int, k: int, m: int)
    requires
        0 <= i,
        0 <= m,
        i + m <= p.len(),
        0 <= k <= t.len(),
        forall|j: int| i <= j < i + m ==> p[j] != '*',
        tail_matches(p, t, i, k),
    ensures
        k + m <= t.len(),
        forall|j: int| 0 <= j < m ==> t[k + j] == #[trigger] p[i + j],
    decreases m,
{
    if m > 0 {
        lemma_literal(p, t, i, k);
        lemma_stretch_text(p, t, i + 1, k + 1, m - 1);
        assert forall|j: int| 0 <= j < m implies t[k + j] == #[trigger] p[i + j] by {
            if j > 0 {
                assert(p[i + j] == p[(i + 1) + (j - 1)]);
            }
        }
    }
}

proof fn lemma_stretch_back(p: Seq<char>, t: Seq<char>, i: int, k: int, m: int)
    requires
        0 <= i,
        0 <= m,
        i + m <= p.len(),
        0 <= k,
        k + m <= t.len(),
        forall|j: int| i <= j < i + m ==> p[j] != '*',
        forall|j: int| 0 <= j < m ==> t[k + j] == #[trigger] p[i + j],
        tail_matches(p, t, i + m, k + m),
    ensures
        tail_matches(p, t, i, k),
    decreases m,
{
    if m > 0 {
        assert(t[k] == p[i + 0]);
        assert forall|j: int| 0 <= j < m - 1 implies t[k + 1 + j] == #[trigger] p[i + 1 + j] by {
            assert(t[k + (j + 1)] == p[i + (j + 1)]);
        }
        lemma_stretch_back(p, t, i + 1, k + 1, m - 1);
        lemma_literal(p, t, i, k);
    }
}

} // verus!
