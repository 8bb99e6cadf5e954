//! Paths as the parts that the platform reads in them.
//!
//! Which texts are absolute, and where one part of a path ends, is for the platform to say. The
//! standard library answers here, once per path; everything else works on the parts.

use vstd::prelude::*;

use crate::text::{lower_of, folded, no_texts, push_text, same, str_texts, texts};

verus! {

/// What one part of a path is.
#[derive(Clone, Copy, PartialEq, Eq, Debug, Structural)]
pub enum PartKind {
    /// A Windows prefix, such as `C:` or `\\server\share`.
    Prefix,
    /// The separator behind the prefix, or at the front.
    RootDir,
    /// `.`
    CurDir,
    /// `..`
    ParentDir,
    /// A name.
    Normal,
}

/// One part of a path.
#[derive(Debug)]
pub struct Part {
    pub kind: PartKind,
    pub text: String,
}

/// One part of a path as mathematical data.
pub struct PartRow {
    pub kind: PartKind,
    pub text: Seq<char>,
}

impl View for Part {
    type V = PartRow;

    open spec fn view(&self) -> PartRow {
        PartRow { kind: self.kind, text: self.text@ }
    }
}

pub open spec fn part_rows(v: Seq<Part>) -> Seq<PartRow> {
    v.map_values(|p: Part| p@)
}

/// The parts that a platform with the given main separator reads in a path.
pub uninterp spec fn path_parts(separator: char, path: Seq<char>) -> Seq<PartRow>;

/// Whether a platform takes a path for absolute. The main separator, and whether `/` alone is absolute,
/// tell platforms apart: Unix, Windows, and those without a file system.
pub uninterp spec fn path_absolute(separator: char, slash: bool, path: Seq<char>) -> bool;

/// The path that a platform with the given main separator makes by pushing one piece after another
/// onto an empty path.
pub uninterp spec fn path_of(separator: char, pieces: Seq<Seq<char>>) -> Seq<char>;

/// `std::path::Path::components` reads the parts of a path, left to right, by the rules of the
/// platform, which the main separator tells apart. The contract names what it reads; it does not
/// say where one part ends.
#[verifier::external_body]
fn components_of(path: &str) -> (r: (char, Vec<Part>))
    ensures
        part_rows(r.1@) == path_parts(r.0, path@),
{
    let read = |c: std::path::Component| Part {
        kind: match c {
            std::path::Component::Prefix(_) => PartKind::Prefix,
            std::path::Component::RootDir => PartKind::RootDir,
            std::path::Component::CurDir => PartKind::CurDir,
            std::path::Component::ParentDir => PartKind::ParentDir,
            std::path::Component::Normal(_) => PartKind::Normal,
        },
        text: c.as_os_str().to_string_lossy().into_owned(),
    };
    (std::path::MAIN_SEPARATOR, std::path::Path::new(path).components().map(read).collect())
}

/// `std::path::Path::is_absolute` tells whether a path does not depend on the current directory, by
/// the rules of the platform. The contract names the answer; beside it stand the main separator and
/// the answer for `/`, by which the platform is known.
#[verifier::external_body]
fn absolute_path(path: &str) -> (r: (char, bool, bool))
    ensures
        r.2 == path_absolute(r.0, r.1, path@),
{
    let slash = std::path::Path::new("/").is_absolute();
    (std::path::MAIN_SEPARATOR, slash, std::path::Path::new(path).is_absolute())
}

/// `std::path::PathBuf::from_iter` pushes the pieces one after another onto an empty path, with the
/// separators that the platform puts between them. The contract names the path that comes out.
#[verifier::external_body]
fn collect_path(pieces: &Vec<String>) -> (r: (char, String))
    ensures
        r.1@ == path_of(r.0, texts(pieces@)),
{
    let path: std::path::PathBuf = pieces.iter().collect();
    (std::path::MAIN_SEPARATOR, path.to_string_lossy().into_owned())
}

/// The text is what some platform makes of the pieces.
pub open spec fn is_path_of(text: Seq<char>, pieces: Seq<Seq<char>>) -> bool {
    exists|separator: char| text == #[trigger] path_of(separator, pieces)
}

/// The path of the given pieces.
pub fn path_from(pieces: &Vec<String>) -> (r: String)
    ensures
        is_path_of(r@, texts(pieces@)),
{
    let (sep, path) = collect_path(pieces);
    assert(path@ == path_of(sep, texts(pieces@)));
    path
}

/// The path of a directory and the names below it.
pub fn path_below(dir: &str, names: &[&str]) -> (r: String)
    ensures
        is_path_of(r@, seq![dir@] + str_texts(names@)),
{
    let ghost all = str_texts(names@);
    let mut pieces = no_texts();
    push_text(&mut pieces, dir.to_string());
    assert(texts(pieces@) =~= seq![dir@] + all.take(0));
    for i in 0..names.len()
        invariant
            all == str_texts(names@),
            texts(pieces@) == seq![dir@] + all.take(i as int),
    {
        push_text(&mut pieces, names[i].to_string());
        assert(texts(pieces@) =~= seq![dir@] + all.take(i + 1));
    }
    assert(all.take(all.len() as int) =~= all);
    path_from(&pieces)
}

/// A path and what the platform reads in it.
#[derive(Debug)]
pub struct PathParts {
    pub text: String,
    pub absolute: bool,
    pub parts: Vec<Part>,
}

/// A path and its parts as mathematical data.
pub struct PathRow {
    pub text: Seq<char>,
    pub absolute: bool,
    pub parts: Seq<PartRow>,
}

impl View for PathParts {
    type V = PathRow;

    open spec fn view(&self) -> PathRow {
        PathRow { text: self.text@, absolute: self.absolute, parts: part_rows(self.parts@) }
    }
}

pub open spec fn path_list(v: Seq<PathParts>) -> Seq<PathRow> {
    v.map_values(|p: PathParts| p@)
}

/// The texts of a list of paths.
pub open spec fn path_texts(v: Seq<PathRow>) -> Seq<Seq<char>> {
    v.map_values(|p: PathRow| p.text)
}

/// The row is what some platform reads in its own text.
pub open spec fn well_read(p: PathRow) -> bool {
    &&& exists|separator: char| p.parts == #[trigger] path_parts(separator, p.text)
    &&& exists|separator: char, slash: bool|
        p.absolute == #[trigger] path_absolute(separator, slash, p.text)
}

/// The row is what some platform reads in the text.
pub open spec fn reads_as(text: Seq<char>, p: PathRow) -> bool {
    p.text == text && well_read(p)
}

impl PathParts {
    /// Reads a path.
    pub fn parse(text: &str) -> (r: PathParts)
        ensures
            reads_as(text@, r@),
    {
        let (s1, parts) = components_of(text);
        let (s2, slash, absolute) = absolute_path(text);
        let r = PathParts { text: text.to_string(), absolute, parts };
        assert(r@.text == text@);
        assert(r@.parts == path_parts(s1, r@.text));
        assert(r@.absolute == path_absolute(s2, slash, r@.text));
        r
    }
}

// ---------------------------------------------------------------------------
// Comparing paths, case aside
// ---------------------------------------------------------------------------

/// The parts in lower case: what two paths are compared by.
pub open spec fn norm(p: PathRow) -> Seq<Seq<char>> {
    p.parts.map_values(|x: PartRow| folded(x.text))
}

/// Two paths are the same, case aside.
pub open spec fn same_path(a: PathRow, b: PathRow) -> bool {
    norm(a) == norm(b)
}

/// `base` leads to `child`, or is it, case aside. A path without parts leads nowhere.
pub open spec fn starts_at(child: PathRow, base: PathRow) -> bool {
    let n = norm(base).len() as int;
    n > 0 && norm(child).len() >= n && norm(child).take(n) == norm(base)
}

/// Whether the first `n` parts of two paths agree, case aside.
fn parts_agree(a: &PathParts, b: &PathParts, n: usize) -> (r: bool)
    requires
        n <= a.parts@.len(),
        n <= b.parts@.len(),
    ensures
        r == (norm(a@).take(n as int) == norm(b@).take(n as int)),
{
    for i in 0..n
        invariant
            n <= a.parts@.len(),
            n <= b.parts@.len(),
            forall|j: int|
                0 <= j < i ==> folded((#[trigger] a.parts@[j]).text@) == folded(
                    b.parts@[j].text@,
                ),
    {
        let x = lower_of(a.parts[i].text.as_str());
        let y = lower_of(b.parts[i].text.as_str());
        if !same(x.as_slice(), y.as_slice()) {
            assert(norm(a@).take(n as int)[i as int] == folded(a.parts@[i as int].text@));
            assert(norm(b@).take(n as int)[i as int] == folded(b.parts@[i as int].text@));
            return false;
        }
    }
    assert(norm(a@).take(n as int) =~= norm(b@).take(n as int)) by {
        assert forall|j: int| 0 <= j < n implies norm(a@)[j] == norm(b@)[j] by {
            assert(norm(a@)[j] == folded(a.parts@[j].text@));
            assert(norm(b@)[j] == folded(b.parts@[j].text@));
        }
    }
    true
}

/// Whether two paths are the same, case aside.
pub fn is_same_path(a: &PathParts, b: &PathParts) -> (r: bool)
    ensures
        r == same_path(a@, b@),
{
    if a.parts.len() != b.parts.len() {
        assert(norm(a@).len() != norm(b@).len());
        return false;
    }
    let n = a.parts.len();
    assert(norm(a@).take(n as int) =~= norm(a@));
    assert(norm(b@).take(n as int) =~= norm(b@));
    parts_agree(a, b, n)
}

/// Whether `base` leads to `child`, or is it, case aside.
pub fn path_starts_with(child: &PathParts, base: &PathParts) -> (r: bool)
    ensures
        r == starts_at(child@, base@),
{
    let n = base.parts.len();
    if n == 0 || child.parts.len() < n {
        return false;
    }
    assert(norm(base@).take(n as int) =~= norm(base@));
    parts_agree(child, base, n)
}

/// What a path leads to, everything below it leads to as well.
pub proof fn leading_is_transitive(a: PathRow, b: PathRow, c: PathRow)
    requires
        starts_at(b, a),
        starts_at(c, b),
    ensures
        starts_at(c, a),
{
    let n = norm(a).len() as int;
    assert(norm(c).take(n) =~= norm(c).take(norm(b).len() as int).take(n));
}

} // verus!
