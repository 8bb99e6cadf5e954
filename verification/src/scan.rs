//! Sizes of files and directory trees.

use vstd::prelude::*;

verus! {

/// What an entry of a directory is. Links are never followed.
#[derive(Clone, Copy, PartialEq, Eq, Debug, Structural)]
pub enum NodeKind {
    File,
    Dir,
    Link,
}

/// A file, directory or link as it was read, with everything below it. What could not be read is not
/// in it.
pub struct Node {
    pub name: String,
    pub path: String,
    pub kind: NodeKind,
    /// The length of the entry itself.
    pub len: u64,
    /// The entries of a directory.
    pub children: Vec<Node>,
}

/// What an entry counts for in the size of its directory: a link nothing, a file its length, a
/// directory what is in it.
pub open spec fn counted(n: Node) -> nat
    decreases n,
{
    match n.kind {
        NodeKind::Link => 0,
        NodeKind::File => n.len as nat,
        NodeKind::Dir => counted_all(n.children@),
    }
}

/// What the entries of a directory count for together.
pub open spec fn counted_all(s: Seq<Node>) -> nat
    decreases s,
{
    if s.len() == 0 {
        0
    } else {
        counted_all(s.drop_last()) + counted(s.last())
    }
}

/// The size of an entry: the length of a file or link, what is in a directory.
pub open spec fn size_of_entry(n: Node) -> nat {
    match n.kind {
        NodeKind::Dir => counted_all(n.children@),
        _ => n.len as nat,
    }
}

/// A size, held at the largest that 64 bits can tell.
pub open spec fn held(n: nat) -> nat {
    if n <= u64::MAX {
        n
    } else {
        u64::MAX as nat
    }
}

/// The sum of two sizes, held at the largest that 64 bits can tell.
pub fn plus(a: u64, b: u64) -> (r: u64)
    ensures
        r == held((a + b) as nat),
{
    if a > u64::MAX - b {
        u64::MAX
    } else {
        a + b
    }
}

/// The front of a list counts for no more than the whole.
pub proof fn lemma_counted_front(s: Seq<Node>, k: int)
    requires
        0 <= k <= s.len(),
    ensures
        counted_all(s.take(k)) <= counted_all(s),
        k < s.len() ==> counted_all(s.take(k + 1)) == counted_all(s.take(k)) + counted(s[k]),
    decreases s.len() - k,
{
    if k < s.len() {
        assert(s.take(k + 1).drop_last() =~= s.take(k));
        lemma_counted_front(s, k + 1);
    } else {
        assert(s.take(k) =~= s);
    }
}

/// The size of a directory, held at the largest that 64 bits can tell. Links count for nothing.
fn dir_size(children: &Vec<Node>) -> (r: u64)
    ensures
        r == held(counted_all(children@)),
    decreases children,
{
    let mut total: u64 = 0;
    assert(children@.take(0) =~= Seq::<Node>::empty());
    for i in 0..children.len()
        invariant
            total == held(counted_all(children@.take(i as int))),
    {
        let n = &children[i];
        proof {
            lemma_counted_front(children@, i as int);
        }
        match n.kind {
            NodeKind::Link => {},
            NodeKind::Dir => {
                total = plus(total, dir_size(&n.children));
            },
            NodeKind::File => {
                total = plus(total, n.len);
            },
        }
    }
    assert(children@.take(children@.len() as int) =~= children@);
    total
}

/// The size of an entry, 0 where it cannot be read.
pub open spec fn size_or_nothing(n: Option<Node>) -> nat {
    match n {
        Some(n) => size_of_entry(n),
        None => 0,
    }
}

/// The size of a single entry: the length of a file, or all that is in a directory. Links are never
/// followed. An entry that cannot be read counts as 0. A size is held at the largest that 64 bits can
/// tell.
pub fn entry_size(entry: &Option<Node>) -> (r: u64)
    ensures
        r == held(size_or_nothing(*entry)),
{
    match entry {
        None => 0,
        Some(n) => match n.kind {
            NodeKind::Dir => dir_size(&n.children),
            _ => n.len,
        },
    }
}

/// A link in a directory adds nothing to the directory's size.
pub proof fn links_add_nothing(s: Seq<Node>, link: Node)
    requires
        link.kind == NodeKind::Link,
    ensures
        counted_all(s.push(link)) == counted_all(s),
{
    assert(s.push(link).drop_last() =~= s);
    assert(counted(link) == 0);
}

/// The sizes of entries, each in the place of its entry.
pub fn scan_sizes(entries: &Vec<Option<Node>>) -> (r: Vec<u64>)
    ensures
        r@.len() == entries@.len(),
        forall|i: int|
            0 <= i < entries@.len() ==> r@[i] == held(size_or_nothing(#[trigger] entries@[i])),
{
    let mut out: Vec<u64> = Vec::new();
    for i in 0..entries.len()
        invariant
            out@.len() == i,
            forall|j: int| 0 <= j < i ==> out@[j] == held(size_or_nothing(#[trigger] entries@[j])),
    {
        out.push(entry_size(&entries[i]));
    }
    out
}

/// Sizes add up: what two lists of entries count for together is what each counts for. A file adds its
/// length, a directory all that is in it, and a link nothing.
pub proof fn sizes_add_up(s: Seq<Node>, t: Seq<Node>, n: Node)
    ensures
        counted_all(s + t) == counted_all(s) + counted_all(t),
        n.kind == NodeKind::File ==> counted_all(s.push(n)) == counted_all(s) + n.len,
        n.kind == NodeKind::Dir ==> counted_all(s.push(n)) == counted_all(s) + counted_all(
            n.children@,
        ),
        n.kind == NodeKind::Link ==> counted_all(s.push(n)) == counted_all(s),
        n.kind != NodeKind::Dir ==> size_of_entry(n) == n.len,
        n.kind == NodeKind::Dir ==> size_of_entry(n) == counted_all(n.children@),
    decreases t.len(),
{
    assert(s.push(n).drop_last() =~= s);
    assert(counted_all(s.push(n)) == counted_all(s) + counted(n));
    if t.len() > 0 {
        sizes_add_up(s, t.drop_last(), n);
        assert((s + t).drop_last() =~= s + t.drop_last());
    } else {
        assert(s + t =~= s);
    }
}

/// A size is told as it is up to the largest that 64 bits can tell, and no size is told as bigger.
pub proof fn sizes_are_told_as_they_are(n: nat)
    ensures
        n <= 0xffff_ffff_ffff_ffff ==> held(n) == n,
        n > 0xffff_ffff_ffff_ffff ==> held(n) == 0xffff_ffff_ffff_ffff,
{
}

} // verus!
