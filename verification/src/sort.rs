//! Stable sorting, highest rank first and then by name.

use vstd::prelude::*;

use crate::text::{lemma_text_le_total, lemma_text_le_trans, not_after, text_le};

verus! {

/// A value that lists order by a rank, the highest first, and, among equal ranks, by a name.
pub trait Listed: Sized {
    /// The rank to order by: the bigger a value, the higher it ranks.
    spec fn rank(&self) -> nat;

    /// The name to order by.
    spec fn rank_name(&self) -> Seq<char>;

    fn rank_key(&self) -> (r: u128)
        ensures
            r == self.rank(),
    ;

    fn name_key(&self) -> (r: Vec<char>)
        ensures
            r@ == self.rank_name(),
    ;
}

/// `(m, a)` comes no later than `(n, b)`: the higher rank first, and equal ranks in name order.
pub open spec fn key_le(m: nat, a: Seq<char>, n: nat, b: Seq<char>) -> bool {
    m > n || (m == n && text_le(a, b))
}

/// The list order of two values.
pub open spec fn no_later<T: Listed>(x: T, y: T) -> bool {
    key_le(x.rank(), x.rank_name(), y.rank(), y.rank_name())
}

/// Every value comes no later than those behind it.
pub open spec fn is_listed<T: Listed>(s: Seq<T>) -> bool {
    forall|i: int, j: int| 0 <= i < j < s.len() ==> no_later(#[trigger] s[i], #[trigger] s[j])
}

/// The values of the given rank and name, in the order in which they stand.
pub open spec fn alike<T: Listed>(s: Seq<T>, n: nat, b: Seq<char>) -> Seq<T> {
    s.filter(|x: T| x.rank() == n && x.rank_name() == b)
}

/// `r` is `s` in list order, in which values of one rank and name keep the order they had.
pub open spec fn is_sorted_form<T: Listed>(r: Seq<T>, s: Seq<T>) -> bool {
    &&& is_listed(r)
    &&& r.len() == s.len()
    &&& r.to_multiset() == s.to_multiset()
    &&& forall|n: nat, b: Seq<char>| #[trigger] alike(r, n, b) == alike(s, n, b)
}

/// Whether a rank and name come no later than a value. The name of the value is looked at only
/// where the ranks are equal.
fn comes_no_later<T: Listed>(m: u128, a: &[char], y: &T) -> (r: bool)
    ensures
        r == key_le(m as nat, a@, y.rank(), y.rank_name()),
{
    let n = y.rank_key();
    m > n || (m == n && not_after(a, y.name_key().as_slice()))
}

proof fn lemma_no_later_trans<T: Listed>(x: T, y: T, z: T)
    requires
        no_later(x, y),
        no_later(y, z),
    ensures
        no_later(x, z),
{
    if x.rank() == y.rank() && y.rank() == z.rank() {
        lemma_text_le_trans(x.rank_name(), y.rank_name(), z.rank_name());
    }
}

proof fn lemma_no_later_total<T: Listed>(x: T, y: T)
    ensures
        no_later(x, y) || no_later(y, x),
{
    lemma_text_le_total(x.rank_name(), y.rank_name());
}

/// Putting `x` in front of the first value that it comes no later than keeps the list sorted and
/// stable.
proof fn lemma_insert<T: Listed>(r: Seq<T>, s: Seq<T>, x: T, p: int)
    requires
        is_sorted_form(r, s),
        0 <= p <= r.len(),
        forall|j: int| 0 <= j < p ==> !no_later(x, #[trigger] r[j]),
        p < r.len() ==> no_later(x, r[p]),
    ensures
        is_sorted_form(r.insert(p, x), seq![x] + s),
{
    let q = r.insert(p, x);
    let t = seq![x] + s;
    assert(q =~= r.take(p) + seq![x] + r.skip(p));
    assert forall|i: int, j: int| 0 <= i < j < q.len() implies no_later(
        #[trigger] q[i],
        #[trigger] q[j],
    ) by {
        if i < p && j == p {
            lemma_no_later_total(x, r[i]);
        } else if i == p {
            if j > p + 1 {
                assert(no_later(r[p], r[j - 1]));
                lemma_no_later_trans(x, r[p], r[j - 1]);
            }
        } else if i < p && j > p {
            assert(no_later(r[i], r[j - 1]));
        } else if i > p {
            assert(no_later(r[i - 1], r[j - 1]));
        }
    }
    assert(q.to_multiset() == t.to_multiset()) by {
        broadcast use vstd::seq_lib::group_to_multiset_ensures;

        vstd::seq_lib::to_multiset_insert(r, p, x);
        vstd::seq_lib::to_multiset_insert(s, 0, x);
        assert(s.insert(0, x) =~= t);
    }
    assert forall|n: nat, b: Seq<char>| #[trigger] alike(q, n, b) == alike(t, n, b) by {
        let f = |y: T| y.rank() == n && y.rank_name() == b;
        Seq::filter_distributes_over_add(r.take(p) + seq![x], r.skip(p), f);
        Seq::filter_distributes_over_add(r.take(p), seq![x], f);
        Seq::filter_distributes_over_add(r.take(p), r.skip(p), f);
        Seq::filter_distributes_over_add(seq![x], s, f);
        assert(r.take(p) + r.skip(p) =~= r);
        assert(alike(r, n, b) == alike(s, n, b));
        if f(x) {
            assert forall|j: int| 0 <= j < r.take(p).len() implies !f(#[trigger] r.take(p)[j]) by {
                assert(r.take(p)[j] == r[j]);
                lemma_text_le_total(b, b);
            }
            r.take(p).lemma_all_neg_filter_empty(f);
            assert(r.take(p).filter(f) =~= Seq::<T>::empty());
            assert(r.filter(f) =~= r.skip(p).filter(f));
            assert(q.filter(f) =~= seq![x].filter(f) + r.skip(p).filter(f));
        } else {
            assert(seq![x].filter(f) =~= Seq::<T>::empty()) by {
                seq![x].lemma_all_neg_filter_empty(f);
            }
            assert(q.filter(f) =~= r.filter(f));
            assert(t.filter(f) =~= s.filter(f));
        }
    }
}

/// Sorts a list, highest rank first, equal ranks by name; equal entries keep their order.
pub fn sort_listed<T: Listed>(v: &mut Vec<T>)
    ensures
        is_sorted_form(final(v)@, old(v)@),
{
    let ghost all = v@;
    let mut out: Vec<T> = Vec::new();
    assert(all.skip(all.len() as int) =~= Seq::<T>::empty());
    assert(out@ =~= Seq::<T>::empty());
    while v.len() > 0
        invariant
            v@ == all.take(v@.len() as int),
            v@.len() <= all.len(),
            is_sorted_form(out@, all.skip(v@.len() as int)),
        decreases v@.len(),
    {
        let ghost n = v@.len();
        let x = match v.pop() {
            Some(x) => x,
            None => {
                return;
            },
        };
        assert(x == all[n - 1]);
        assert(v@ =~= all.take(n - 1));
        let m = x.rank_key();
        let a = x.name_key();
        let mut p: usize = 0;
        while p < out.len() && !comes_no_later(m, a.as_slice(), &out[p])
            invariant
                0 <= p <= out@.len(),
                m == x.rank(),
                a@ == x.rank_name(),
                forall|j: int| 0 <= j < p ==> !no_later(x, #[trigger] out@[j]),
            decreases out@.len() - p,
        {
            p = p + 1;
        }
        proof {
            lemma_insert(out@, all.skip(n as int), x, p as int);
            assert(seq![x] + all.skip(n as int) =~= all.skip(n - 1));
        }
        out.insert(p, x);
    }
    assert(all.skip(0) =~= all);
    *v = out;
}

/// In list order the bigger comes first, and among equals the name that comes first in the order of the
/// characters; nothing is lost and nothing is doubled.
pub proof fn lists_begin_with_the_biggest<T: Listed>(r: Seq<T>, s: Seq<T>, i: int, j: int)
    requires
        is_sorted_form(r, s),
        0 <= i < j < r.len(),
    ensures
        r[i].rank() >= r[j].rank(),
        r[i].rank() == r[j].rank() && r[i].rank_name() != r[j].rank_name() ==> exists|k: int|
            comes_first_at(r[i].rank_name(), r[j].rank_name(), k),
        r.to_multiset() == s.to_multiset(),
{
    assert(no_later(r[i], r[j]));
    if r[i].rank() == r[j].rank() && r[i].rank_name() != r[j].rank_name() {
        let k = lemma_where_first(r[i].rank_name(), r[j].rank_name());
        assert(comes_first_at(r[i].rank_name(), r[j].rank_name(), k));
    }
}

/// The texts agree up to a place, and there the first one ends, or has the lesser character.
pub open spec fn comes_first_at(a: Seq<char>, b: Seq<char>, k: int) -> bool {
    &&& 0 <= k <= a.len()
    &&& k < b.len()
    &&& a.take(k) == b.take(k)
    &&& k == a.len() || a[k] < b[k]
}

proof fn lemma_where_first(a: Seq<char>, b: Seq<char>) -> (k: int)
    requires
        text_le(a, b),
        a != b,
    ensures
        comes_first_at(a, b, k),
    decreases a.len(),
{
    if a.len() == 0 {
        assert(a =~= Seq::<char>::empty());
        if b.len() == 0 {
            assert(a =~= b);
        }
        assert(a.take(0) =~= b.take(0));
        0
    } else if a[0] != b[0] {
        assert(a.take(0) =~= b.take(0));
        0
    } else {
        let x = a.drop_first();
        let y = b.drop_first();
        if x == y {
            assert(a =~= seq![a[0]] + x);
            assert(b =~= seq![b[0]] + y);
        }
        let k = lemma_where_first(x, y);
        assert(a.take(k + 1) =~= seq![a[0]] + x.take(k));
        assert(b.take(k + 1) =~= seq![b[0]] + y.take(k));
        k + 1
    }
}

} // verus!
