//! The disk usage explorer: one walk builds an index of directory sizes, a browser moves through it.
//! Nothing here ever deletes anything.

use vstd::prelude::*;

use crate::calendar::{iso_from_unix, stamp_of};
use crate::json::{json_escape, json_escaped};
use crate::number::{
    align_left, align_right, decimal, decimal_of, left_aligned, repeat, repeated, right_aligned,
};
use crate::safety::Env;
use crate::scan::{
    counted_all, entry_size, held, lemma_counted_front, plus, size_or_nothing, Node, NodeKind,
};
use crate::sort::{is_sorted_form, sort_listed, Listed};
use crate::targets::{answers, answers_all};
use crate::term::Key;
use crate::text::{chars_of, no_texts, push_text, str_eq, string_of, text_opt, texts};
use crate::ui::{fmt_count, fmt_size, grouped, painted, size_text, Style};

verus! {

/// What the explorer is asked for.
pub struct AnalyzeOptions {
    pub path: Option<String>,
    pub json: bool,
    /// How many entries of a directory are shown at most.
    pub top: usize,
}

impl Default for AnalyzeOptions {
    fn default() -> (r: AnalyzeOptions)
        ensures
            r.path is None,
            !r.json,
            r.top == 40,
    {
        AnalyzeOptions { path: None, json: false, top: 40 }
    }
}

/// The directory to start from: the one that was given, else the user's home.
pub open spec fn start_of(path: Option<Seq<char>>, env: Env) -> Option<Seq<char>> {
    match path {
        Some(p) => Some(p),
        None => match env("USERPROFILE"@) {
            Some(p) => Some(p),
            None => env("HOME"@),
        },
    }
}

/// The directory to start from.
pub fn default_root<F: Fn(&str) -> Option<String>>(path: &Option<String>, lookup: &F) -> (r: Option<
    String,
>)
    requires
        answers_all(*lookup),
    ensures
        forall|env: Env|
            answers(*lookup, env) ==> text_opt(r) == #[trigger] start_of(text_opt(*path), env),
{
    if let Some(p) = path {
        return Some(p.clone());
    }
    let profile = lookup("USERPROFILE");
    if profile.is_some() {
        return profile;
    }
    lookup("HOME")
}

/// Why a directory cannot be explored, if it cannot.
pub open spec fn root_problem(path: Option<Seq<char>>, exists_there: bool, is_dir: bool) -> Option<
    Seq<char>,
> {
    match path {
        None => Some("error: no path given and no home directory found"@),
        Some(p) => if !exists_there {
            Some("error: path does not exist: "@ + p)
        } else if !is_dir {
            Some("error: not a directory: "@ + p)
        } else {
            None
        },
    }
}

/// Why a directory cannot be explored, if it cannot.
pub fn root_error(path: &Option<String>, exists_there: bool, is_dir: bool) -> (r: Option<String>)
    ensures
        text_opt(r) == root_problem(text_opt(*path), exists_there, is_dir),
{
    match path {
        None => Some("error: no path given and no home directory found".to_string()),
        Some(p) => if !exists_there {
            let mut out = "error: path does not exist: ".to_string();
            out.append(p.as_str());
            Some(out)
        } else if !is_dir {
            let mut out = "error: not a directory: ".to_string();
            out.append(p.as_str());
            Some(out)
        } else {
            None
        },
    }
}

// ---------------------------------------------------------------------------
// The index
// ---------------------------------------------------------------------------

/// The size of a directory.
pub struct DirSize {
    pub path: String,
    pub size: u64,
}

/// The size of a directory as mathematical data.
pub struct SizeRow {
    pub path: Seq<char>,
    pub size: u64,
}

impl View for DirSize {
    type V = SizeRow;

    open spec fn view(&self) -> SizeRow {
        SizeRow { path: self.path@, size: self.size }
    }
}

pub open spec fn size_rows(v: Seq<DirSize>) -> Seq<SizeRow> {
    v.map_values(|d: DirSize| d@)
}

/// What a walk found.
pub struct ScanResult {
    /// The size of every directory that was visited, with everything below it; links count for
    /// nothing.
    pub dir_sizes: Vec<DirSize>,
    pub files: u64,
    pub dirs: u64,
}

/// The sizes of a directory and of every directory below it.
pub open spec fn index_of(n: Node) -> Seq<SizeRow>
    decreases n,
{
    index_below(n.children@).push(
        SizeRow { path: n.path@, size: held(counted_all(n.children@)) as u64 },
    )
}

/// The sizes of every directory among the entries and below them.
pub open spec fn index_below(s: Seq<Node>) -> Seq<SizeRow>
    decreases s,
{
    if s.len() == 0 {
        seq![]
    } else {
        let front = index_below(s.drop_last());
        if s.last().kind == NodeKind::Dir {
            front + index_of(s.last())
        } else {
            front
        }
    }
}

/// How many files are below a directory.
pub open spec fn files_below(s: Seq<Node>) -> nat
    decreases s,
{
    if s.len() == 0 {
        0
    } else {
        files_below(s.drop_last()) + match s.last().kind {
            NodeKind::File => 1,
            NodeKind::Dir => files_below(s.last().children@),
            NodeKind::Link => 0,
        }
    }
}

/// How many directories are below a directory.
pub open spec fn dirs_below(s: Seq<Node>) -> nat
    decreases s,
{
    if s.len() == 0 {
        0
    } else {
        dirs_below(s.drop_last()) + match s.last().kind {
            NodeKind::File => 0,
            NodeKind::Dir => 1 + dirs_below(s.last().children@),
            NodeKind::Link => 0,
        }
    }
}

/// The size of a directory by the index: the last that was entered for it.
pub open spec fn indexed(index: Seq<SizeRow>, path: Seq<char>) -> Option<u64>
    decreases index.len(),
{
    if index.len() == 0 {
        None
    } else if index.last().path == path {
        Some(index.last().size)
    } else {
        indexed(index.drop_last(), path)
    }
}

impl ScanResult {
    /// The size of a directory, if it was visited.
    pub fn size_of(&self, path: &str) -> (r: Option<u64>)
        ensures
            r == indexed(size_rows(self.dir_sizes@), path@),
    {
        let ghost all = size_rows(self.dir_sizes@);
        let mut n: usize = self.dir_sizes.len();
        assert(all.take(n as int) =~= all);
        while n > 0
            invariant
                n <= self.dir_sizes@.len(),
                all == size_rows(self.dir_sizes@),
                indexed(all, path@) == indexed(all.take(n as int), path@),
            decreases n,
        {
            assert(all.take(n as int).last() == self.dir_sizes@[n - 1]@);
            assert(all.take(n as int).drop_last() =~= all.take(n - 1));
            if str_eq(self.dir_sizes[n - 1].path.as_str(), path) {
                return Some(self.dir_sizes[n - 1].size);
            }
            n = n - 1;
        }
        None
    }
}

proof fn lemma_files_front(s: Seq<Node>, k: int)
    requires
        0 <= k < s.len(),
    ensures
        s.take(k + 1).drop_last() == s.take(k),
        s.take(k + 1).last() == s[k],
{
    assert(s.take(k + 1).drop_last() =~= s.take(k));
}

/// Walks everything below a directory: its size, and the sizes of all directories below it.
fn walk(children: &Vec<Node>, scan: &mut ScanResult) -> (r: u64)
    ensures
        r == held(counted_all(children@)),
        size_rows(final(scan).dir_sizes@) == size_rows(old(scan).dir_sizes@) + index_below(
            children@,
        ),
        final(scan).files == held(old(scan).files as nat + files_below(children@)),
        final(scan).dirs == held(old(scan).dirs as nat + dirs_below(children@)),
    decreases children,
{
    let ghost before = size_rows(scan.dir_sizes@);
    let ghost files0 = scan.files as nat;
    let ghost dirs0 = scan.dirs as nat;
    let mut total: u64 = 0;
    assert(children@.take(0) =~= Seq::<Node>::empty());
    assert(before + Seq::<SizeRow>::empty() =~= before);
    for i in 0..children.len()
        invariant
            total == held(counted_all(children@.take(i as int))),
            size_rows(scan.dir_sizes@) == before + index_below(children@.take(i as int)),
            scan.files == held(files0 + files_below(children@.take(i as int))),
            scan.dirs == held(dirs0 + dirs_below(children@.take(i as int))),
    {
        let n = &children[i];
        proof {
            lemma_counted_front(children@, i as int);
            lemma_files_front(children@, i as int);
        }
        match n.kind {
            NodeKind::Link => {},
            NodeKind::File => {
                scan.files = plus(scan.files, 1);
                total = plus(total, n.len);
            },
            NodeKind::Dir => {
                scan.dirs = plus(scan.dirs, 1);
                let ghost sofar = size_rows(scan.dir_sizes@);
                let size = walk(&n.children, scan);
                let ghost inner = scan.dir_sizes@;
                let d = DirSize { path: n.path.clone(), size };
                scan.dir_sizes.push(d);
                assert(size_rows(scan.dir_sizes@) =~= size_rows(inner).push(d@));
                assert(index_of(*n) == index_below(n.children@).push(d@));
                assert(size_rows(scan.dir_sizes@) =~= before + index_below(
                    children@.take(i + 1),
                ));
                total = plus(total, size);
            },
        }
    }
    assert(children@.take(children@.len() as int) =~= children@);
    total
}

/// Builds the index of a directory that was read. Counts and sizes are held at the largest that 64
/// bits can tell.
pub fn scan_tree(root: &Node) -> (r: ScanResult)
    ensures
        size_rows(r.dir_sizes@) == index_of(*root),
        r.files == held(files_below(root.children@)),
        r.dirs == held(dirs_below(root.children@)),
{
    let mut scan = ScanResult { dir_sizes: Vec::new(), files: 0, dirs: 0 };
    assert(size_rows(scan.dir_sizes@) =~= Seq::<SizeRow>::empty());
    let size = walk(&root.children, &mut scan);
    let ghost inner = scan.dir_sizes@;
    assert(size_rows(inner) =~= index_below(root.children@));
    let d = DirSize { path: root.path.clone(), size };
    scan.dir_sizes.push(d);
    assert(size_rows(scan.dir_sizes@) =~= size_rows(inner).push(d@));
    scan
}

// ---------------------------------------------------------------------------
// The entries of a directory
// ---------------------------------------------------------------------------

/// An entry of a directory, as reading it came upon.
pub struct Seen {
    pub name: String,
    pub path: String,
    pub kind: NodeKind,
    pub len: u64,
}

/// An entry as mathematical data.
pub struct SeenRow {
    pub name: Seq<char>,
    pub path: Seq<char>,
    pub kind: NodeKind,
    pub len: u64,
}

impl View for Seen {
    type V = SeenRow;

    open spec fn view(&self) -> SeenRow {
        SeenRow { name: self.name@, path: self.path@, kind: self.kind, len: self.len }
    }
}

pub open spec fn seen_rows(v: Seq<Seen>) -> Seq<SeenRow> {
    v.map_values(|s: Seen| s@)
}

/// An entry with its size.
pub struct Entry {
    pub name: String,
    pub path: String,
    pub size: u64,
    pub is_dir: bool,
}

/// An entry with its size as mathematical data.
pub struct EntryRow {
    pub name: Seq<char>,
    pub path: Seq<char>,
    pub size: u64,
    pub is_dir: bool,
}

impl View for Entry {
    type V = EntryRow;

    open spec fn view(&self) -> EntryRow {
        EntryRow { name: self.name@, path: self.path@, size: self.size, is_dir: self.is_dir }
    }
}

pub open spec fn entry_rows(v: Seq<Entry>) -> Seq<EntryRow> {
    v.map_values(|e: Entry| e@)
}

impl Listed for Entry {
    open spec fn rank(&self) -> nat {
        self.size as nat
    }

    open spec fn rank_name(&self) -> Seq<char> {
        self.name@
    }

    fn rank_key(&self) -> (r: u128) {
        self.size as u128
    }

    fn name_key(&self) -> (r: Vec<char>) {
        chars_of(self.name.as_str())
    }
}

/// The sizes of directories that the index does not know: reading gives what `sizes` says.
pub open spec fn measures<R: Fn(&str) -> Option<Node>>(
    read: R,
    sizes: spec_fn(Seq<char>) -> u64,
) -> bool {
    forall|p: &str, r: Option<Node>| #[trigger]
        call_ensures(read, (p,), r) ==> held(size_or_nothing(r)) == sizes(p@)
}

/// The entry with its size: of a directory the indexed one, or a new measurement for one that came
/// after the walk.
pub open spec fn with_size(
    s: SeenRow,
    index: Seq<SizeRow>,
    sizes: spec_fn(Seq<char>) -> u64,
) -> EntryRow {
    EntryRow {
        name: s.name,
        path: s.path,
        size: if s.kind == NodeKind::Dir {
            match indexed(index, s.path) {
                Some(n) => n,
                None => sizes(s.path),
            }
        } else {
            s.len
        },
        is_dir: s.kind == NodeKind::Dir,
    }
}

/// The entries of a directory with their sizes; links are left out.
pub open spec fn entries_with_sizes(
    seen: Seq<SeenRow>,
    index: Seq<SizeRow>,
    sizes: spec_fn(Seq<char>) -> u64,
) -> Seq<EntryRow>
    decreases seen.len(),
{
    if seen.len() == 0 {
        seq![]
    } else {
        let front = entries_with_sizes(seen.drop_last(), index, sizes);
        if seen.last().kind == NodeKind::Link {
            front
        } else {
            front.push(with_size(seen.last(), index, sizes))
        }
    }
}

/// The list is the entries, biggest first, equal sizes by name.
pub open spec fn is_listing(r: Seq<Entry>, rows: Seq<EntryRow>) -> bool {
    exists|v: Seq<Entry>| entry_rows(v) == rows && #[trigger] is_sorted_form(r, v)
}

/// The entries of a directory, biggest first, equal sizes by name. `read` reads what is at the path of
/// a directory that came after the walk.
pub fn list_entries<R: Fn(&str) -> Option<Node>>(
    seen: &Vec<Seen>,
    scan: &ScanResult,
    read: &R,
) -> (r: Vec<Entry>)
    requires
        forall|p: &str| #[trigger] call_requires(*read, (p,)),
    ensures
        forall|sizes: spec_fn(Seq<char>) -> u64|
            measures(*read, sizes) ==> is_listing(
                r@,
                #[trigger] entries_with_sizes(
                    seen_rows(seen@),
                    size_rows(scan.dir_sizes@),
                    sizes,
                ),
            ),
{
    let ghost index = size_rows(scan.dir_sizes@);
    let ghost all = seen_rows(seen@);
    let mut out: Vec<Entry> = Vec::new();
    let mut i: usize = 0;
    assert(all.take(0) =~= Seq::<SeenRow>::empty());
    assert(entry_rows(out@) =~= Seq::<EntryRow>::empty());
    while i < seen.len()
        invariant
            i <= seen@.len(),
            all == seen_rows(seen@),
            index == size_rows(scan.dir_sizes@),
            forall|p: &str| #[trigger] call_requires(*read, (p,)),
            forall|sizes: spec_fn(Seq<char>) -> u64|
                measures(*read, sizes) ==> entry_rows(out@) == #[trigger] entries_with_sizes(
                    all.take(i as int),
                    index,
                    sizes,
                ),
        decreases seen@.len() - i,
    {
        let s = &seen[i];
        let ghost sofar = entry_rows(out@);
        assert(all.take(i + 1).drop_last() =~= all.take(i as int));
        assert(all.take(i + 1).last() == s@);
        if !matches!(s.kind, NodeKind::Link) {
            let is_dir = matches!(s.kind, NodeKind::Dir);
            let known = scan.size_of(s.path.as_str());
            let size = if is_dir {
                match known {
                    Some(n) => n,
                    None => {
                        let found = read(s.path.as_str());
                        entry_size(&found)
                    },
                }
            } else {
                s.len
            };
            let e = Entry { name: s.name.clone(), path: s.path.clone(), size, is_dir };
            let ghost before = out@;
            out.push(e);
            assert(entry_rows(out@) =~= entry_rows(before).push(e@));
            assert forall|sizes: spec_fn(Seq<char>) -> u64| measures(
                *read,
                sizes,
            ) implies entry_rows(out@) == #[trigger] entries_with_sizes(
                all.take(i + 1),
                index,
                sizes,
            ) by {
                assert(sofar == entries_with_sizes(all.take(i as int), index, sizes));
                assert(e@ == with_size(s@, index, sizes));
            }
        } else {
            assert forall|sizes: spec_fn(Seq<char>) -> u64| measures(
                *read,
                sizes,
            ) implies entry_rows(out@) == #[trigger] entries_with_sizes(
                all.take(i + 1),
                index,
                sizes,
            ) by {
                assert(sofar == entries_with_sizes(all.take(i as int), index, sizes));
            }
        }
        i = i + 1;
    }
    assert(all.take(all.len() as int) =~= all);
    let ghost unsorted = out@;
    sort_listed(&mut out);
    assert forall|sizes: spec_fn(Seq<char>) -> u64| measures(*read, sizes) implies is_listing(
        out@,
        #[trigger] entries_with_sizes(all, index, sizes),
    ) by {
        assert(entry_rows(unsorted) == entries_with_sizes(all, index, sizes));
        assert(is_sorted_form(out@, unsorted));
    }
    out
}

// ---------------------------------------------------------------------------
// The explorer
// ---------------------------------------------------------------------------

/// Where the explorer is.
pub struct Explorer {
    /// The directory that is shown.
    pub cur: String,
    /// The directories that lead to it, the root first.
    pub above: Vec<String>,
    pub entries: Vec<Entry>,
    pub cursor: usize,
    /// The first entry that is shown.
    pub offset: usize,
    /// Shown once, below the list.
    pub message: String,
    /// The directory that was just left: the cursor lands on it.
    pub leaving: Option<String>,
}

/// Where the explorer is, as mathematical data.
pub struct ExplorerRow {
    pub cur: Seq<char>,
    pub above: Seq<Seq<char>>,
    pub entries: Seq<EntryRow>,
    pub cursor: int,
    pub offset: int,
    pub message: Seq<char>,
    pub leaving: Option<Seq<char>>,
}

impl View for Explorer {
    type V = ExplorerRow;

    open spec fn view(&self) -> ExplorerRow {
        ExplorerRow {
            cur: self.cur@,
            above: texts(self.above@),
            entries: entry_rows(self.entries@),
            cursor: self.cursor as int,
            offset: self.offset as int,
            message: self.message@,
            leaving: text_opt(self.leaving),
        }
    }
}

/// How many entries are shown: five rows of the terminal are for other things, and never fewer than
/// three or more than the user wants are shown.
pub open spec fn explorer_viewport(rows: int, top: int) -> int {
    let most = if top > 3 {
        top
    } else {
        3
    };
    let room = if rows > 5 {
        rows - 5
    } else {
        0
    };
    if room < 3 {
        3
    } else if room > most {
        most
    } else {
        room
    }
}

/// How many entries are shown.
pub fn browse_viewport(rows: usize, top: usize) -> (r: usize)
    ensures
        r == explorer_viewport(rows as int, top as int),
        3 <= r,
{
    let most: usize = if top > 3 {
        top
    } else {
        3
    };
    let room: usize = if rows > 5 {
        rows - 5
    } else {
        0
    };
    if room < 3 {
        3
    } else if room > most {
        most
    } else {
        room
    }
}

/// The last place of a list, 0 where it is empty.
pub open spec fn last_place(count: int) -> int {
    if count > 0 {
        count - 1
    } else {
        0
    }
}

/// The smaller of two places.
pub open spec fn lesser(a: int, b: int) -> int {
    if a < b {
        a
    } else {
        b
    }
}

/// The cursor on an entry that exists, and the shown entries moved so that it is among them.
pub open spec fn explorer_in_view(e: ExplorerRow, viewport: int) -> ExplorerRow {
    let cursor = lesser(e.cursor, last_place(e.entries.len() as int));
    let above = lesser(cursor, e.offset);
    let offset = if cursor >= above + viewport {
        cursor + 1 - viewport
    } else {
        above
    };
    ExplorerRow { cursor, offset, ..e }
}

/// What a key press asks for.
#[derive(Clone, Copy, PartialEq, Eq, Debug, Structural)]
pub enum Browse {
    /// The explorer ends.
    Quit,
    /// Nothing is needed.
    Stay,
    /// The directory that is now current is to be read.
    List,
    /// The file under the cursor is to be asked for its date.
    Info,
}

/// The state after a key press, and what it asks for.
pub open spec fn browsed(e: ExplorerRow, viewport: int, key: Key) -> (ExplorerRow, Browse) {
    let last = last_place(e.entries.len() as int);
    let q = ExplorerRow { message: seq![], ..e };
    match key {
        Key::Quit => (q, Browse::Quit),
        Key::Down => (ExplorerRow { cursor: lesser(e.cursor + 1, last), ..q }, Browse::Stay),
        Key::Up => (
            ExplorerRow {
                cursor: if e.cursor > 0 {
                    e.cursor - 1
                } else {
                    0
                },
                ..q
            },
            Browse::Stay,
        ),
        Key::PageDown => (
            ExplorerRow { cursor: lesser(e.cursor + viewport, last), ..q },
            Browse::Stay,
        ),
        Key::PageUp => (
            ExplorerRow {
                cursor: if e.cursor > viewport {
                    e.cursor - viewport
                } else {
                    0
                },
                ..q
            },
            Browse::Stay,
        ),
        Key::Top => (ExplorerRow { cursor: 0, ..q }, Browse::Stay),
        Key::Bottom => (ExplorerRow { cursor: last, ..q }, Browse::Stay),
        Key::Right | Key::Enter => if e.cursor < e.entries.len() {
            if e.entries[e.cursor].is_dir {
                (
                    ExplorerRow {
                        cur: e.entries[e.cursor].path,
                        above: e.above.push(e.cur),
                        cursor: 0,
                        offset: 0,
                        leaving: None,
                        ..q
                    },
                    Browse::List,
                )
            } else {
                (q, Browse::Info)
            }
        } else {
            (q, Browse::Stay)
        },
        Key::Left => if e.above.len() > 0 {
            (
                ExplorerRow {
                    cur: e.above.last(),
                    above: e.above.drop_last(),
                    offset: 0,
                    leaving: Some(e.cur),
                    ..q
                },
                Browse::List,
            )
        } else {
            (ExplorerRow { message: "already at the scanned root"@, ..q }, Browse::Stay)
        },
        Key::Space | Key::Number(_) | Key::Other => (q, Browse::Stay),
    }
}

/// The first entry at the path, or the first of all where there is none.
pub open spec fn place_of_path(entries: Seq<EntryRow>, path: Seq<char>) -> int {
    if exists|i: int| 0 <= i < entries.len() && (#[trigger] entries[i]).path == path {
        choose|i: int|
            0 <= i < entries.len() && (#[trigger] entries[i]).path == path && forall|j: int|
                0 <= j < i ==> (#[trigger] entries[j]).path != path
    } else {
        0
    }
}

/// The state after the entries of the current directory were read: the cursor lands on the directory
/// that was just left, else on the first entry.
pub open spec fn arrived(e: ExplorerRow, entries: Seq<EntryRow>) -> ExplorerRow {
    ExplorerRow {
        entries,
        cursor: match e.leaving {
            Some(p) => place_of_path(entries, p),
            None => 0,
        },
        leaving: None,
        ..e
    }
}

fn find_path(entries: &Vec<Entry>, path: &str) -> (r: usize)
    ensures
        r == place_of_path(entry_rows(entries@), path@),
{
    let ghost all = entry_rows(entries@);
    for i in 0..entries.len()
        invariant
            all == entry_rows(entries@),
            forall|j: int| 0 <= j < i ==> (#[trigger] all[j]).path != path@,
    {
        assert(all[i as int] == entries@[i as int]@);
        if str_eq(entries[i].path.as_str(), path) {
            proof {
                let k = place_of_path(all, path@);
                assert(all[i as int].path == path@);
                assert(all[k].path == path@);
                assert(k == i as int);
            }
            return i;
        }
    }
    0
}

fn empty_text() -> (r: String)
    ensures
        r@ == Seq::<char>::empty(),
{
    let r = String::new();
    assert(r@ =~= Seq::<char>::empty());
    r
}

impl Explorer {
    /// The explorer at its root.
    pub fn new(root: &str, entries: Vec<Entry>) -> (r: Explorer)
        ensures
            r@ == (ExplorerRow {
                cur: root@,
                above: seq![],
                entries: entry_rows(entries@),
                cursor: 0,
                offset: 0,
                message: seq![],
                leaving: None,
            }),
    {
        Explorer {
            cur: root.to_string(),
            above: no_texts(),
            entries,
            cursor: 0,
            offset: 0,
            message: empty_text(),
            leaving: None,
        }
    }

    /// Puts the cursor on an entry that exists, and moves the shown entries so that it is among them.
    pub fn bring_into_view(&mut self, viewport: usize)
        requires
            viewport > 0,
        ensures
            final(self)@ == explorer_in_view(old(self)@, viewport as int),
    {
        let last: usize = if self.entries.len() > 0 {
            self.entries.len() - 1
        } else {
            0
        };
        if self.cursor > last {
            self.cursor = last;
        }
        if self.cursor < self.offset {
            self.offset = self.cursor;
        }
        if self.cursor - self.offset >= viewport {
            self.offset = self.cursor - (viewport - 1);
        }
    }

    /// Takes in a key press.
    pub fn press(&mut self, viewport: usize, key: Key) -> (r: Browse)
        ensures
            (final(self)@, r) == browsed(old(self)@, viewport as int, key),
    {
        self.message = empty_text();
        let n = self.entries.len();
        let last: usize = if n > 0 {
            n - 1
        } else {
            0
        };
        match key {
            Key::Quit => Browse::Quit,
            Key::Down => {
                if self.cursor < last {
                    self.cursor = self.cursor + 1;
                } else {
                    self.cursor = last;
                }
                Browse::Stay
            },
            Key::Up => {
                if self.cursor > 0 {
                    self.cursor = self.cursor - 1;
                }
                Browse::Stay
            },
            Key::PageDown => {
                if self.cursor < last && viewport < last - self.cursor {
                    self.cursor = self.cursor + viewport;
                } else {
                    self.cursor = last;
                }
                Browse::Stay
            },
            Key::PageUp => {
                if self.cursor > viewport {
                    self.cursor = self.cursor - viewport;
                } else {
                    self.cursor = 0;
                }
                Browse::Stay
            },
            Key::Top => {
                self.cursor = 0;
                Browse::Stay
            },
            Key::Bottom => {
                self.cursor = last;
                Browse::Stay
            },
            Key::Right | Key::Enter => {
                if self.cursor >= n {
                    return Browse::Stay;
                }
                assert(self@.entries[self.cursor as int] == self.entries@[self.cursor as int]@);
                if self.entries[self.cursor].is_dir {
                    let next = self.entries[self.cursor].path.clone();
                    let here = self.cur.clone();
                    push_text(&mut self.above, here);
                    self.cur = next;
                    self.cursor = 0;
                    self.offset = 0;
                    self.leaving = None;
                    Browse::List
                } else {
                    Browse::Info
                }
            },
            Key::Left => {
                let ghost before = self.above@;
                match self.above.pop() {
                    Some(parent) => {
                        assert(texts(self.above@) =~= texts(before).drop_last());
                        assert(texts(before).last() == parent@);
                        let left = self.cur.clone();
                        self.leaving = Some(left);
                        self.cur = parent;
                        self.offset = 0;
                        Browse::List
                    },
                    None => {
                        assert(texts(before).len() == 0);
                        self.message = "already at the scanned root".to_string();
                        Browse::Stay
                    },
                }
            },
            Key::Space | Key::Number(_) | Key::Other => Browse::Stay,
        }
    }

    /// Takes in the entries of the current directory.
    pub fn arrive(&mut self, entries: Vec<Entry>)
        ensures
            final(self)@ == arrived(old(self)@, entry_rows(entries@)),
    {
        self.cursor = match &self.leaving {
            Some(p) => find_path(&entries, p.as_str()),
            None => 0,
        };
        self.entries = entries;
        self.leaving = None;
    }

    /// Takes in the date of the file under the cursor.
    pub fn take_info(&mut self, modified: Option<u64>)
        requires
            old(self).cursor < old(self).entries@.len(),
        ensures
            final(self)@ == (ExplorerRow {
                message: info_text(old(self)@.entries[old(self)@.cursor], modified),
                ..old(self)@
            }),
    {
        assert(self@.entries[self.cursor as int] == self.entries@[self.cursor as int]@);
        let said = file_info(&self.entries[self.cursor], modified);
        self.message = said;
    }
}

/// What is said of a file.
pub open spec fn info_text(e: EntryRow, modified: Option<u64>) -> Seq<char> {
    e.name + " — "@ + size_text(e.size as nat) + ", modified "@ + match modified {
        Some(secs) => stamp_of(secs as int),
        None => "?"@,
    }
}

/// What is said of a file: its name, its size and when it was last changed.
pub fn file_info(entry: &Entry, modified: Option<u64>) -> (r: String)
    ensures
        r@ == info_text(entry@, modified),
{
    let mut out = entry.name.clone();
    out.append(" — ");
    out.append(fmt_size(entry.size).as_str());
    out.append(", modified ");
    match modified {
        Some(secs) => out.append(iso_from_unix(secs).as_str()),
        None => out.append("?"),
    }
    out
}

// ---------------------------------------------------------------------------
// What is shown
// ---------------------------------------------------------------------------

/// How long the bar of an entry is, by its size and the biggest in the list.
pub type Bars = spec_fn(u64, u64) -> usize;

/// The bar can be asked for all sizes.
pub open spec fn bars_all<B: Fn(u64, u64) -> usize>(bar: B) -> bool {
    forall|size: u64, biggest: u64| #[trigger] call_requires(bar, (size, biggest))
}

/// The bar is as long as `bars` says, whenever it is asked.
pub open spec fn draws<B: Fn(u64, u64) -> usize>(bar: B, bars: Bars) -> bool {
    forall|size: u64, biggest: u64, r: usize| #[trigger]
        call_ensures(bar, (size, biggest), r) ==> r == bars(size, biggest)
}

/// The size of the biggest entry of a sorted list, at least 1.
pub open spec fn biggest(entries: Seq<EntryRow>) -> u64 {
    if entries.len() > 0 && entries[0].size > 1 {
        entries[0].size
    } else {
        1
    }
}

fn biggest_of(entries: &Vec<Entry>) -> (r: u64)
    ensures
        r == biggest(entry_rows(entries@)),
{
    if entries.len() > 0 {
        assert(entry_rows(entries@)[0] == entries@[0]@);
        if entries[0].size > 1 {
            return entries[0].size;
        }
    }
    1
}

/// The name, size and bar of an entry.
pub open spec fn entry_line(e: EntryRow, on: bool, max: u64, bars: Bars) -> Seq<char> {
    (if e.is_dir {
        "▸"@
    } else {
        " "@
    }) + " "@ + left_aligned(
        if e.is_dir {
            painted(on, "36"@, e.name)
        } else {
            e.name
        },
        40,
    ) + " "@ + right_aligned(size_text(e.size as nat), 10) + "  "@ + painted(
        on,
        "2"@,
        repeated('█', bars(e.size, max) as int),
    )
}

fn render_line<B: Fn(u64, u64) -> usize>(e: &Entry, style: &Style, max: u64, bar: &B) -> (r: String)
    requires
        bars_all(*bar),
    ensures
        forall|bars: Bars|
            draws(*bar, bars) ==> r@ == #[trigger] entry_line(e@, style.on, max, bars),
{
    let mut out = if e.is_dir {
        "▸".to_string()
    } else {
        " ".to_string()
    };
    out.append(" ");
    let name = if e.is_dir {
        style.cyan(e.name.as_str())
    } else {
        e.name.clone()
    };
    out.append(align_left(name.as_str(), 40).as_str());
    out.append(" ");
    out.append(align_right(fmt_size(e.size).as_str(), 10).as_str());
    out.append("  ");
    let len = bar(e.size, max);
    let blocks = string_of(repeat('█', len).as_slice());
    out.append(style.dim(blocks.as_str()).as_str());
    assert forall|bars: Bars| draws(*bar, bars) implies out@ == #[trigger] entry_line(
        e@,
        style.on,
        max,
        bars,
    ) by {
        assert(len == bars(e.size, max));
    }
    out
}

/// One row of the list; the one under the cursor in reverse.
pub open spec fn explorer_row(
    e: EntryRow,
    on: bool,
    at_cursor: bool,
    max: u64,
    bars: Bars,
) -> Seq<char> {
    let line = (if at_cursor {
        painted(on, "1"@, "❯"@)
    } else {
        " "@
    }) + " "@ + entry_line(e, on, max, bars);
    if at_cursor {
        "\x1b[7m"@ + line + "\x1b[0m"@ + "\r\n"@
    } else {
        line + "\r\n"@
    }
}

/// The rows of the entries from one place up to another.
pub open spec fn explorer_rows(
    entries: Seq<EntryRow>,
    on: bool,
    cursor: int,
    bars: Bars,
    from: int,
    to: int,
) -> Seq<char>
    decreases to - from,
{
    if to <= from {
        seq![]
    } else {
        explorer_rows(entries, on, cursor, bars, from, to - 1) + explorer_row(
            entries[to - 1],
            on,
            to - 1 == cursor,
            biggest(entries),
            bars,
        )
    }
}

/// The title and the counts.
pub open spec fn explorer_head(
    cur: Seq<char>,
    total: u64,
    files: u64,
    dirs: u64,
    seconds: Seq<char>,
    on: bool,
) -> Seq<char> {
    "\x1b[H\x1b[2J"@ + painted(on, "1"@, "Analyze"@) + "  "@ + painted(on, "36"@, cur) + "  "@
        + painted(on, "2"@, size_text(total as nat)) + "\r\n"@ + painted(
        on,
        "2"@,
        grouped(decimal(files as nat)) + " files · "@ + grouped(decimal(dirs as nat))
            + " dirs · scanned in "@ + seconds
            + "s · j/k move · l open · h up · g/G · q quit"@,
    ) + "\r\n\r\n"@
}

/// What stands below the list.
pub open spec fn explorer_foot(count: int, end: int, on: bool, message: Seq<char>) -> Seq<char> {
    (if count == 0 {
        painted(on, "2"@, "  (empty directory)"@) + "\r\n"@
    } else if end < count {
        painted(
            on,
            "2"@,
            "  … "@ + decimal(end as nat) + "/"@ + decimal(count as nat) + " shown"@,
        ) + "\r\n"@
    } else {
        seq![]
    }) + (if message.len() == 0 {
        seq![]
    } else {
        "\r\n"@ + painted(on, "33"@, message) + "\r\n"@
    })
}

/// The size of a directory by the index, 0 where it is not known.
pub open spec fn total_at(index: Seq<SizeRow>, path: Seq<char>) -> u64 {
    match indexed(index, path) {
        Some(n) => n,
        None => 0,
    }
}

/// Where the shown entries end.
pub open spec fn shown_to(count: int, offset: int, viewport: int) -> int {
    if offset >= count {
        offset
    } else {
        lesser(offset + viewport, count)
    }
}

/// The frame of the explorer.
pub open spec fn explorer_frame(
    e: ExplorerRow,
    index: Seq<SizeRow>,
    files: u64,
    dirs: u64,
    seconds: Seq<char>,
    on: bool,
    viewport: int,
    bars: Bars,
) -> Seq<char> {
    explorer_head(e.cur, total_at(index, e.cur), files, dirs, seconds, on) + explorer_rows(
        e.entries,
        on,
        e.cursor,
        bars,
        e.offset,
        shown_to(e.entries.len() as int, e.offset, viewport),
    ) + explorer_foot(e.entries.len() as int, e.offset + viewport, on, e.message)
}

fn render_head(
    cur: &str,
    total: u64,
    files: u64,
    dirs: u64,
    seconds: &str,
    style: &Style,
) -> (r: String)
    ensures
        r@ == explorer_head(cur@, total, files, dirs, seconds@, style.on),
{
    let mut counts = fmt_count(files);
    counts.append(" files · ");
    counts.append(fmt_count(dirs).as_str());
    counts.append(" dirs · scanned in ");
    counts.append(seconds);
    counts.append("s · j/k move · l open · h up · g/G · q quit");
    let mut out = "\x1b[H\x1b[2J".to_string();
    out.append(style.bold("Analyze").as_str());
    out.append("  ");
    out.append(style.cyan(cur).as_str());
    out.append("  ");
    out.append(style.dim(fmt_size(total).as_str()).as_str());
    out.append("\r\n");
    out.append(style.dim(counts.as_str()).as_str());
    out.append("\r\n\r\n");
    out
}

fn render_foot(count: usize, end: usize, style: &Style, message: &str) -> (r: String)
    ensures
        r@ == explorer_foot(count as int, end as int, style.on, message@),
{
    let mut out = if count == 0 {
        let mut s = style.dim("  (empty directory)");
        s.append("\r\n");
        s
    } else if end < count {
        let mut said = "  … ".to_string();
        said.append(decimal_of(end as u64).as_str());
        said.append("/");
        said.append(decimal_of(count as u64).as_str());
        said.append(" shown");
        let mut s = style.dim(said.as_str());
        s.append("\r\n");
        s
    } else {
        empty_text()
    };
    let more = if chars_of(message).len() == 0 {
        empty_text()
    } else {
        let mut s = "\r\n".to_string();
        s.append(style.yellow(message).as_str());
        s.append("\r\n");
        s
    };
    out.append(more.as_str());
    out
}

fn render_row<B: Fn(u64, u64) -> usize>(
    e: &Entry,
    style: &Style,
    at_cursor: bool,
    max: u64,
    bar: &B,
) -> (r: String)
    requires
        bars_all(*bar),
    ensures
        forall|bars: Bars|
            draws(*bar, bars) ==> r@ == #[trigger] explorer_row(
                e@,
                style.on,
                at_cursor,
                max,
                bars,
            ),
{
    let text = render_line(e, style, max, bar);
    let mut line = if at_cursor {
        style.bold("❯")
    } else {
        " ".to_string()
    };
    line.append(" ");
    line.append(text.as_str());
    let mut out = if at_cursor {
        let mut s = "\x1b[7m".to_string();
        s.append(line.as_str());
        s.append("\x1b[0m");
        s
    } else {
        line
    };
    out.append("\r\n");
    assert forall|bars: Bars| draws(*bar, bars) implies out@ == #[trigger] explorer_row(
        e@,
        style.on,
        at_cursor,
        max,
        bars,
    ) by {
        assert(text@ == entry_line(e@, style.on, max, bars));
    }
    out
}

/// The frame of the explorer. `seconds` is how long the walk took, `bar` how long the bar of a size
/// is.
pub fn draw<B: Fn(u64, u64) -> usize>(
    explorer: &Explorer,
    scan: &ScanResult,
    seconds: &str,
    style: &Style,
    viewport: usize,
    bar: &B,
) -> (r: String)
    requires
        explorer.offset + viewport <= usize::MAX,
        bars_all(*bar),
    ensures
        forall|bars: Bars|
            draws(*bar, bars) ==> r@ == #[trigger] explorer_frame(
                explorer@,
                size_rows(scan.dir_sizes@),
                scan.files,
                scan.dirs,
                seconds@,
                style.on,
                viewport as int,
                bars,
            ),
{
    let ghost all = explorer@.entries;
    let total = match scan.size_of(explorer.cur.as_str()) {
        Some(n) => n,
        None => 0,
    };
    let mut out = render_head(
        explorer.cur.as_str(),
        total,
        scan.files,
        scan.dirs,
        seconds,
        style,
    );
    let ghost head = out@;
    let count = explorer.entries.len();
    let offset = explorer.offset;
    let end = if offset >= count {
        offset
    } else if offset + viewport < count {
        offset + viewport
    } else {
        count
    };
    let max = biggest_of(&explorer.entries);
    let mut i: usize = offset;
    assert(head + Seq::<char>::empty() =~= head);
    while i < end
        invariant
            offset <= i <= end,
            end <= explorer.entries@.len() || end == offset,
            all == entry_rows(explorer.entries@),
            max == biggest(all),
            bars_all(*bar),
            forall|bars: Bars|
                draws(*bar, bars) ==> out@ == head + #[trigger] explorer_rows(
                    all,
                    style.on,
                    explorer.cursor as int,
                    bars,
                    offset as int,
                    i as int,
                ),
        decreases end - i,
    {
        assert(all[i as int] == explorer.entries@[i as int]@);
        let ghost before = out@;
        let row = render_row(&explorer.entries[i], style, i == explorer.cursor, max, bar);
        out.append(row.as_str());
        i = i + 1;
        assert forall|bars: Bars| draws(*bar, bars) implies out@ == head
            + #[trigger] explorer_rows(
            all,
            style.on,
            explorer.cursor as int,
            bars,
            offset as int,
            i as int,
        ) by {
            let rows = explorer_rows(
                all,
                style.on,
                explorer.cursor as int,
                bars,
                offset as int,
                i - 1,
            );
            assert(before == head + rows);
            assert(row@ == explorer_row(
                all[i - 1],
                style.on,
                i - 1 == explorer.cursor,
                max,
                bars,
            ));
            assert(head + rows + row@ =~= head + (rows + row@));
        }
    }
    let foot = render_foot(count, offset + viewport, style, explorer.message.as_str());
    let ghost before = out@;
    out.append(foot.as_str());
    assert forall|bars: Bars| draws(*bar, bars) implies out@ == #[trigger] explorer_frame(
        explorer@,
        size_rows(scan.dir_sizes@),
        scan.files,
        scan.dirs,
        seconds@,
        style.on,
        viewport as int,
        bars,
    ) by {
        assert(before == head + explorer_rows(
            all,
            style.on,
            explorer.cursor as int,
            bars,
            offset as int,
            end as int,
        ));
    }
    out
}

/// The numbered rows of a flat list.
pub open spec fn flat_rows(entries: Seq<EntryRow>, on: bool, bars: Bars, to: int) -> Seq<char>
    decreases to,
{
    if to <= 0 {
        seq![]
    } else {
        flat_rows(entries, on, bars, to - 1) + right_aligned(decimal(to as nat), 4) + "  "@
            + entry_line(entries[to - 1], on, biggest(entries), bars) + "\n"@
    }
}

/// The title and the counts of a flat list.
pub open spec fn flat_head(
    cur: Seq<char>,
    total: u64,
    files: u64,
    dirs: u64,
    seconds: Seq<char>,
    on: bool,
) -> Seq<char> {
    painted(on, "1"@, "Analyze"@) + "  "@ + painted(on, "36"@, cur) + "\n"@ + painted(
        on,
        "2"@,
        "total "@ + size_text(total as nat) + " · "@ + grouped(decimal(files as nat)) + " files · "@
            + grouped(decimal(dirs as nat)) + " dirs · scanned in "@ + seconds + "s"@,
    ) + "\n"@ + "\n"@
}

/// What stands below a flat list.
pub open spec fn flat_foot(count: int, top: int, on: bool) -> Seq<char> {
    (if count > top {
        painted(
            on,
            "2"@,
            "  ... "@ + decimal((count - top) as nat) + " more entries hidden (--top "@ + decimal(
                top as nat,
            ) + ")"@,
        ) + "\n"@
    } else {
        seq![]
    }) + (if count == 0 {
        painted(on, "2"@, "  (empty directory)"@) + "\n"@
    } else {
        seq![]
    })
}

/// The list of a directory for output that is no terminal.
pub open spec fn flat_text(
    cur: Seq<char>,
    entries: Seq<EntryRow>,
    index: Seq<SizeRow>,
    files: u64,
    dirs: u64,
    seconds: Seq<char>,
    on: bool,
    top: int,
    bars: Bars,
) -> Seq<char> {
    flat_head(cur, total_at(index, cur), files, dirs, seconds, on) + flat_rows(
        entries,
        on,
        bars,
        lesser(top, entries.len() as int),
    ) + flat_foot(entries.len() as int, top, on)
}

/// The list of a directory for output that is no terminal.
pub fn print_flat<B: Fn(u64, u64) -> usize>(
    cur: &str,
    entries: &Vec<Entry>,
    scan: &ScanResult,
    seconds: &str,
    style: &Style,
    top: usize,
    bar: &B,
) -> (r: String)
    requires
        bars_all(*bar),
    ensures
        forall|bars: Bars|
            draws(*bar, bars) ==> r@ == #[trigger] flat_text(
                cur@,
                entry_rows(entries@),
                size_rows(scan.dir_sizes@),
                scan.files,
                scan.dirs,
                seconds@,
                style.on,
                top as int,
                bars,
            ),
{
    let ghost all = entry_rows(entries@);
    let total = match scan.size_of(cur) {
        Some(n) => n,
        None => 0,
    };
    let mut counts = "total ".to_string();
    counts.append(fmt_size(total).as_str());
    counts.append(" · ");
    counts.append(fmt_count(scan.files).as_str());
    counts.append(" files · ");
    counts.append(fmt_count(scan.dirs).as_str());
    counts.append(" dirs · scanned in ");
    counts.append(seconds);
    counts.append("s");
    let mut out = style.bold("Analyze");
    out.append("  ");
    out.append(style.cyan(cur).as_str());
    out.append("\n");
    out.append(style.dim(counts.as_str()).as_str());
    out.append("\n");
    out.append("\n");
    let ghost head = out@;
    assert(head == flat_head(
        cur@,
        total_at(size_rows(scan.dir_sizes@), cur@),
        scan.files,
        scan.dirs,
        seconds@,
        style.on,
    ));
    let max = biggest_of(entries);
    let count = entries.len();
    let end = if top < count {
        top
    } else {
        count
    };
    let mut i: usize = 0;
    assert(head + Seq::<char>::empty() =~= head);
    while i < end
        invariant
            i <= end <= entries@.len(),
            all == entry_rows(entries@),
            max == biggest(all),
            bars_all(*bar),
            forall|bars: Bars|
                draws(*bar, bars) ==> out@ == head + #[trigger] flat_rows(
                    all,
                    style.on,
                    bars,
                    i as int,
                ),
        decreases end - i,
    {
        assert(all[i as int] == entries@[i as int]@);
        let ghost before = out@;
        let line = render_line(&entries[i], style, max, bar);
        let number = align_right(decimal_of((i + 1) as u64).as_str(), 4);
        out.append(number.as_str());
        out.append("  ");
        out.append(line.as_str());
        out.append("\n");
        i = i + 1;
        assert forall|bars: Bars| draws(*bar, bars) implies out@ == head + #[trigger] flat_rows(
            all,
            style.on,
            bars,
            i as int,
        ) by {
            let rows = flat_rows(all, style.on, bars, i - 1);
            assert(before == head + rows);
            assert(line@ == entry_line(all[i - 1], style.on, max, bars));
            assert(head + rows + number@ + "  "@ + line@ + "\n"@ =~= head + (rows + number@ + "  "@
                + line@ + "\n"@));
        }
    }
    let ghost listed = out@;
    let mut foot = if count > top {
        let mut said = "  ... ".to_string();
        said.append(decimal_of((count - top) as u64).as_str());
        said.append(" more entries hidden (--top ");
        said.append(decimal_of(top as u64).as_str());
        said.append(")");
        let mut s = style.dim(said.as_str());
        s.append("\n");
        s
    } else {
        empty_text()
    };
    let none = if count == 0 {
        let mut s = style.dim("  (empty directory)");
        s.append("\n");
        s
    } else {
        empty_text()
    };
    foot.append(none.as_str());
    out.append(foot.as_str());
    assert forall|bars: Bars| draws(*bar, bars) implies out@ == #[trigger] flat_text(
        cur@,
        all,
        size_rows(scan.dir_sizes@),
        scan.files,
        scan.dirs,
        seconds@,
        style.on,
        top as int,
        bars,
    ) by {
        assert(listed == head + flat_rows(all, style.on, bars, end as int));
    }
    out
}

/// The entries as JSON objects with commas between them.
pub open spec fn json_entries(entries: Seq<EntryRow>) -> Seq<char>
    decreases entries.len(),
{
    if entries.len() == 0 {
        seq![]
    } else {
        let e = entries.last();
        json_entries(entries.drop_last()) + (if entries.len() > 1 {
            ","@
        } else {
            seq![]
        }) + "{\"name\":\""@ + json_escaped(e.name) + "\",\"type\":\""@ + (if e.is_dir {
            "dir"@
        } else {
            "file"@
        }) + "\",\"size\":"@ + decimal(e.size as nat) + "}"@
    }
}

/// The list of a directory as JSON.
pub open spec fn json_listing(
    root: Seq<char>,
    entries: Seq<EntryRow>,
    index: Seq<SizeRow>,
    files: u64,
    dirs: u64,
) -> Seq<char> {
    "{\"path\":\""@ + json_escaped(root) + "\",\"total\":"@ + decimal(
        total_at(index, root) as nat,
    ) + ",\"files\":"@ + decimal(files as nat) + ",\"dirs\":"@ + decimal(dirs as nat)
        + ",\"entries\":["@ + json_entries(entries) + "]}"@
}

fn render_json_entries(entries: &Vec<Entry>) -> (r: String)
    ensures
        r@ == json_entries(entry_rows(entries@)),
{
    let ghost all = entry_rows(entries@);
    let mut out = empty_text();
    assert(all.take(0) =~= Seq::<EntryRow>::empty());
    for i in 0..entries.len()
        invariant
            all == entry_rows(entries@),
            out@ == json_entries(all.take(i as int)),
    {
        assert(all.take(i + 1).drop_last() =~= all.take(i as int));
        assert(all.take(i + 1).last() == entries@[i as int]@);
        let comma = if i > 0 {
            ",".to_string()
        } else {
            empty_text()
        };
        out.append(comma.as_str());
        out.append("{\"name\":\"");
        out.append(json_escape(entries[i].name.as_str()).as_str());
        out.append("\",\"type\":\"");
        out.append(
            if entries[i].is_dir {
                "dir"
            } else {
                "file"
            },
        );
        out.append("\",\"size\":");
        out.append(decimal_of(entries[i].size).as_str());
        out.append("}");
    }
    assert(all.take(all.len() as int) =~= all);
    out
}

/// The list of a directory as JSON.
pub fn print_json(root: &str, entries: &Vec<Entry>, scan: &ScanResult) -> (r: String)
    ensures
        r@ == json_listing(
            root@,
            entry_rows(entries@),
            size_rows(scan.dir_sizes@),
            scan.files,
            scan.dirs,
        ),
{
    let total = match scan.size_of(root) {
        Some(n) => n,
        None => 0,
    };
    let mut out = "{\"path\":\"".to_string();
    out.append(json_escape(root).as_str());
    out.append("\",\"total\":");
    out.append(decimal_of(total).as_str());
    out.append(",\"files\":");
    out.append(decimal_of(scan.files).as_str());
    out.append(",\"dirs\":");
    out.append(decimal_of(scan.dirs).as_str());
    out.append(",\"entries\":[");
    out.append(render_json_entries(entries).as_str());
    out.append("]}");
    out
}

// ---------------------------------------------------------------------------
// Laws
// ---------------------------------------------------------------------------

/// The index knows the directory that was walked, with the size of everything below it.
pub proof fn the_root_is_indexed(root: Node)
    ensures
        indexed(index_of(root), root.path@) == Some(held(counted_all(root.children@)) as u64),
{
}

/// The index holds as many entries as there are directories: one for the root and one for each
/// directory below it.
pub proof fn the_index_is_as_long_as_the_tree(root: Node)
    ensures
        index_of(root).len() == 1 + dirs_below(root.children@),
{
    lemma_index_len(root.children@);
}

/// The entry that is reached by going to the given places, one directory after another.
pub open spec fn reached(n: Node, way: Seq<int>) -> Node
    decreases way.len(),
{
    if way.len() == 0 {
        n
    } else {
        reached(n.children@[way[0]], way.drop_first())
    }
}

/// Every step of the way leads into a directory that is there.
pub open spec fn through_directories(n: Node, way: Seq<int>) -> bool
    decreases way.len(),
{
    way.len() == 0 || {
        &&& 0 <= way[0] < n.children@.len()
        &&& n.children@[way[0]].kind == NodeKind::Dir
        &&& through_directories(n.children@[way[0]], way.drop_first())
    }
}

/// What the index says of a directory.
pub open spec fn size_row(n: Node) -> SizeRow {
    SizeRow { path: n.path@, size: held(counted_all(n.children@)) as u64 }
}

/// No two entries of the index are for one path.
pub open spec fn one_each(index: Seq<SizeRow>) -> bool {
    forall|i: int, j: int|
        0 <= i < j < index.len() ==> (#[trigger] index[i]).path != (#[trigger] index[j]).path
}

proof fn lemma_index_holds(s: Seq<Node>, k: int, x: SizeRow)
    requires
        0 <= k < s.len(),
        s[k].kind == NodeKind::Dir,
        index_of(s[k]).contains(x),
    ensures
        index_below(s).contains(x),
    decreases s.len(),
{
    let front = index_below(s.drop_last());
    if k == s.len() - 1 {
        let j = choose|j: int| 0 <= j < index_of(s[k]).len() && index_of(s[k])[j] == x;
        assert(index_below(s)[front.len() + j] == x);
    } else {
        lemma_index_holds(s.drop_last(), k, x);
        let j = choose|j: int| 0 <= j < front.len() && front[j] == x;
        assert(index_below(s)[j] == x);
    }
}

proof fn lemma_reached_is_indexed(root: Node, way: Seq<int>)
    requires
        through_directories(root, way),
    ensures
        index_of(root).contains(size_row(reached(root, way))),
    decreases way.len(),
{
    let below = index_below(root.children@);
    if way.len() == 0 {
        assert(index_of(root)[below.len() as int] == size_row(root));
    } else {
        let x = size_row(reached(root, way));
        lemma_reached_is_indexed(root.children@[way[0]], way.drop_first());
        lemma_index_holds(root.children@, way[0], x);
        let j = choose|j: int| 0 <= j < below.len() && below[j] == x;
        assert(index_of(root)[j] == x);
    }
}

proof fn lemma_indexed_at(index: Seq<SizeRow>, j: int)
    requires
        0 <= j < index.len(),
        one_each(index),
    ensures
        indexed(index, index[j].path) == Some(index[j].size),
    decreases index.len(),
{
    if j < index.len() - 1 {
        assert(index[j].path != index[index.len() - 1].path);
        let front = index.drop_last();
        assert forall|a: int, b: int| 0 <= a < b < front.len() implies (#[trigger] front[a]).path
            != (#[trigger] front[b]).path by {
            assert(index[a].path != index[b].path);
        }
        lemma_indexed_at(front, j);
    }
}

/// Every directory of the tree, however deep, is in the index with the size of everything below it;
/// and where no path occurs twice, that is what the index tells of its path.
pub proof fn every_directory_is_indexed(root: Node, way: Seq<int>)
    requires
        through_directories(root, way),
    ensures
        index_of(root).contains(size_row(reached(root, way))),
        one_each(index_of(root)) ==> indexed(index_of(root), reached(root, way).path@) == Some(
            size_row(reached(root, way)).size,
        ),
{
    lemma_reached_is_indexed(root, way);
    let index = index_of(root);
    let x = size_row(reached(root, way));
    let j = choose|j: int| 0 <= j < index.len() && index[j] == x;
    if one_each(index) {
        lemma_indexed_at(index, j);
    }
}

proof fn lemma_index_len(s: Seq<Node>)
    ensures
        index_below(s).len() == dirs_below(s),
    decreases s,
{
    if s.len() > 0 {
        lemma_index_len(s.drop_last());
        if s.last().kind == NodeKind::Dir {
            lemma_index_len(s.last().children@);
            assert(index_of(s.last()).len() == index_below(s.last().children@).len() + 1);
        }
    }
}

/// Going into a directory and back up leads to the same directory, with the cursor on the one that
/// was left.
pub proof fn going_in_and_out_returns(
    e: ExplorerRow,
    viewport: int,
    inside: Seq<EntryRow>,
    again: Seq<EntryRow>,
)
    requires
        0 <= e.cursor < e.entries.len(),
        e.entries[e.cursor].is_dir,
        again == e.entries,
        forall|j: int| 0 <= j < e.cursor ==> (#[trigger] e.entries[j]).path != e.entries[e.cursor].path,
    ensures
        ({
            let a = arrived(browsed(e, viewport, Key::Enter).0, inside);
            let b = arrived(browsed(a, viewport, Key::Left).0, again);
            b.cur == e.cur && b.above == e.above && b.cursor == e.cursor && b.entries == e.entries
        }),
{
    let a = arrived(browsed(e, viewport, Key::Enter).0, inside);
    assert(a.above == e.above.push(e.cur));
    assert(a.above.drop_last() =~= e.above);
    let p = e.entries[e.cursor].path;
    let k = place_of_path(again, p);
    assert(again[e.cursor].path == p);
    assert(again[k].path == p);
    assert(k == e.cursor);
}

/// The explorer never leaves the directory that was walked: at the root, going up changes nothing but
/// the message.
pub proof fn the_root_is_the_top(e: ExplorerRow, viewport: int)
    requires
        e.above.len() == 0,
    ensures
        browsed(e, viewport, Key::Left).0.cur == e.cur,
        browsed(e, viewport, Key::Left).1 == Browse::Stay,
{
}

/// Brought into view, the cursor is among the entries that are shown.
pub proof fn explorer_cursor_is_shown(e: ExplorerRow, viewport: int)
    requires
        viewport > 0,
        0 <= e.cursor,
        0 <= e.offset,
    ensures
        ({
            let q = explorer_in_view(e, viewport);
            &&& 0 <= q.offset <= q.cursor < q.offset + viewport
            &&& e.entries.len() > 0 ==> q.cursor < e.entries.len()
        }),
{
}

/// Every file and directory that was seen is listed under its own name and path: a file with its length, a
/// directory with what the walk found in it, or, where the walk did not come by, with what is read
/// there now. Links are not listed. Entries are taken one by one.
pub proof fn everything_seen_is_listed(
    seen: Seq<SeenRow>,
    more: Seq<SeenRow>,
    index: Seq<SizeRow>,
    sizes: spec_fn(Seq<char>) -> u64,
    i: int,
)
    requires
        0 <= i < seen.len(),
    ensures
        entries_with_sizes(seen + more, index, sizes) == entries_with_sizes(seen, index, sizes)
            + entries_with_sizes(more, index, sizes),
        seen[i].kind == NodeKind::File ==> entries_with_sizes(seen, index, sizes).contains(
            EntryRow {
                name: seen[i].name,
                path: seen[i].path,
                size: seen[i].len,
                is_dir: false,
            },
        ),
        seen[i].kind == NodeKind::Dir ==> entries_with_sizes(seen, index, sizes).contains(
            EntryRow {
                name: seen[i].name,
                path: seen[i].path,
                size: match indexed(index, seen[i].path) {
                    Some(n) => n,
                    None => sizes(seen[i].path),
                },
                is_dir: true,
            },
        ),
        seen[i].kind == NodeKind::Link ==> entries_with_sizes(seen.push(seen[i]), index, sizes)
            == entries_with_sizes(seen, index, sizes),
{
    assert(seen.push(seen[i]).drop_last() =~= seen);
    lemma_entries_sum(seen, more, index, sizes);
    lemma_entry_listed(seen, index, sizes, i);
}

proof fn lemma_entries_sum(
    seen: Seq<SeenRow>,
    more: Seq<SeenRow>,
    index: Seq<SizeRow>,
    sizes: spec_fn(Seq<char>) -> u64,
)
    ensures
        entries_with_sizes(seen + more, index, sizes) == entries_with_sizes(seen, index, sizes)
            + entries_with_sizes(more, index, sizes),
    decreases more.len(),
{
    let a = entries_with_sizes(seen, index, sizes);
    if more.len() > 0 {
        lemma_entries_sum(seen, more.drop_last(), index, sizes);
        assert((seen + more).drop_last() =~= seen + more.drop_last());
        assert(entries_with_sizes(seen + more, index, sizes) =~= a + entries_with_sizes(
            more,
            index,
            sizes,
        ));
    } else {
        assert(seen + more =~= seen);
        assert(a + entries_with_sizes(more, index, sizes) =~= a);
    }
}

proof fn lemma_entry_listed(
    seen: Seq<SeenRow>,
    index: Seq<SizeRow>,
    sizes: spec_fn(Seq<char>) -> u64,
    i: int,
)
    requires
        0 <= i < seen.len(),
    ensures
        seen[i].kind != NodeKind::Link ==> entries_with_sizes(seen, index, sizes).contains(
            with_size(seen[i], index, sizes),
        ),
    decreases seen.len(),
{
    let front = entries_with_sizes(seen.drop_last(), index, sizes);
    let all = entries_with_sizes(seen, index, sizes);
    let x = with_size(seen[i], index, sizes);
    if i < seen.len() - 1 {
        assert(seen.drop_last()[i] == seen[i]);
        lemma_entry_listed(seen.drop_last(), index, sizes, i);
        if seen[i].kind != NodeKind::Link {
            let k = choose|k: int| 0 <= k < front.len() && front[k] == x;
            assert(all[k] == x);
        }
    } else if seen[i].kind != NodeKind::Link {
        assert(all[front.len() as int] == x);
    }
}

/// The biggest entry is listed first, and equals go by name; nothing is lost in the order.
pub proof fn the_biggest_entry_comes_first(r: Seq<Entry>, rows: Seq<EntryRow>, i: int, j: int)
    requires
        is_listing(r, rows),
        0 <= i < j < r.len(),
    ensures
        r[i].size >= r[j].size,
        r[i].size == r[j].size && r[i].name@ != r[j].name@ ==> exists|k: int|
            crate::sort::comes_first_at(r[i].name@, r[j].name@, k),
        r.len() == rows.len(),
{
    let v = choose|v: Seq<Entry>| entry_rows(v) == rows && #[trigger] is_sorted_form(r, v);
    crate::sort::lists_begin_with_the_biggest(r, v, i, j);
}

/// What was asked for is explored; without a path it is the user's home.
pub proof fn what_was_asked_for_is_explored(path: Seq<char>, env: Env)
    ensures
        start_of(Some(path), env) == Some(path),
        env("USERPROFILE"@) is Some ==> start_of(None, env) == env("USERPROFILE"@),
        env("USERPROFILE"@) is None ==> start_of(None, env) == env("HOME"@),
        root_problem(None, true, true) is Some,
        root_problem(Some(path), false, true) is Some,
        root_problem(Some(path), true, false) is Some,
        root_problem(Some(path), true, true) is None,
{
}

/// Files and directories are counted wherever they are below the root, and links are not.
pub proof fn counts_add_up(s: Seq<Node>, t: Seq<Node>, n: Node)
    ensures
        files_below(s + t) == files_below(s) + files_below(t),
        dirs_below(s + t) == dirs_below(s) + dirs_below(t),
        n.kind == NodeKind::File ==> files_below(s.push(n)) == files_below(s) + 1 && dirs_below(
            s.push(n),
        ) == dirs_below(s),
        n.kind == NodeKind::Dir ==> files_below(s.push(n)) == files_below(s) + files_below(
            n.children@,
        ) && dirs_below(s.push(n)) == dirs_below(s) + 1 + dirs_below(n.children@),
        n.kind == NodeKind::Link ==> files_below(s.push(n)) == files_below(s) && dirs_below(s.push(n))
            == dirs_below(s),
    decreases t.len(),
{
    assert(s.push(n).drop_last() =~= s);
    if t.len() > 0 {
        counts_add_up(s, t.drop_last(), n);
        assert((s + t).drop_last() =~= s + t.drop_last());
    } else {
        assert(s + t =~= s);
    }
}

/// As many entries are shown as the terminal has room for beside five rows of other things, but never
/// fewer than three and never more than the user wants, unless that is fewer than three.
pub proof fn the_view_fills_the_terminal(rows: int, top: int)
    requires
        0 <= rows,
        0 <= top,
    ensures
        explorer_viewport(rows, top) >= 3,
        3 <= rows - 5 <= top ==> explorer_viewport(rows, top) == rows - 5,
        rows - 5 >= top >= 3 ==> explorer_viewport(rows, top) == top,
        rows - 5 <= 3 || top <= 3 ==> explorer_viewport(rows, top) == 3,
{
}

/// The keys move as they say: one row, one view, or to an end of the list, and never out of it; a
/// directory is entered, a file is asked about, and from the scanned root there is no way up.
pub proof fn keys_move_as_they_say(e: ExplorerRow, viewport: int)
    requires
        0 <= e.cursor < e.entries.len(),
        viewport > 0,
    ensures
        browsed(e, viewport, Key::Down).0.cursor == (if e.cursor + 1 < e.entries.len() {
            e.cursor + 1
        } else {
            e.cursor
        }),
        browsed(e, viewport, Key::Up).0.cursor == (if e.cursor > 0 {
            e.cursor - 1
        } else {
            0
        }),
        browsed(e, viewport, Key::PageDown).0.cursor == (if e.cursor + viewport < e.entries.len() {
            e.cursor + viewport
        } else {
            e.entries.len() - 1
        }),
        browsed(e, viewport, Key::PageUp).0.cursor == (if e.cursor - viewport > 0 {
            e.cursor - viewport
        } else {
            0
        }),
        browsed(e, viewport, Key::Top).0.cursor == 0,
        browsed(e, viewport, Key::Bottom).0.cursor == e.entries.len() - 1,
        browsed(e, viewport, Key::Quit).1 == Browse::Quit,
        e.entries[e.cursor].is_dir ==> browsed(e, viewport, Key::Enter).1 == Browse::List && browsed(
            e,
            viewport,
            Key::Enter,
        ).0.cur == e.entries[e.cursor].path,
        !e.entries[e.cursor].is_dir ==> browsed(e, viewport, Key::Enter).1 == Browse::Info && browsed(
            e,
            viewport,
            Key::Enter,
        ).0.cur == e.cur,
        browsed(e, viewport, Key::Right) == browsed(e, viewport, Key::Enter),
        e.above.len() > 0 ==> browsed(e, viewport, Key::Left).0.cur == e.above.last(),
        e.above.len() == 0 ==> browsed(e, viewport, Key::Left).0.cur == e.cur,
{
}

} // verus!
