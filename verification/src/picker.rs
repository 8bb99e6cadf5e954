//! The full-screen picker of installed applications: its state, what keys do to it, and its frame.

use vstd::prelude::*;

use crate::apps::{app_rows, sort_apps, AppEntry, AppRow};
use crate::breaks::{
    breaks, lemma_aligned_line, lemma_breaks_add, lemma_decimal_line, lemma_no_feed,
    lemma_one_line_add, lemma_padded_line, lemma_painted_line, lemma_painted_no_feed,
    lemma_size_line, lemma_truncated_line, no_feed, one_line,
};
use crate::number::{align_right, decimal, decimal_of, right_aligned};
use crate::paths::{reads_as, PartKind, PathParts, PathRow};
use crate::safety::name_count;
use crate::scan::{entry_size, held, plus, size_or_nothing, Node};
use crate::sort::is_sorted_form;
use crate::term::Key;
use crate::text::{
    chars_of, ends_with, has_prefix, has_suffix, has_text, join, joined, no_texts, push_text, str_eq,
    string_of, texts,
};
use crate::ui::{
    fmt_size, pad_to_width, padded, painted, size_text, truncate_width, truncated, Style,
};

verus! {

// ---------------------------------------------------------------------------
// Pieces
// ---------------------------------------------------------------------------

/// What tells a row apart when the list is sorted anew.
pub open spec fn row_key(a: AppRow) -> Seq<char> {
    a.name + "|"@ + a.location
}

/// What tells a row apart when the list is sorted anew.
pub fn entry_key(app: &AppEntry) -> (r: String)
    ensures
        r@ == row_key(app@),
{
    let mut out = app.name.clone();
    out.append("|");
    out.append(app.location.as_str());
    out
}

/// How many rows of the list fit: the frame can hold nine rows besides the list, and one row of the
/// list is always shown.
pub open spec fn viewport_for(rows: int) -> int {
    if rows <= 10 {
        1
    } else if rows >= 509 {
        500
    } else {
        rows - 9
    }
}

/// How many rows of the list fit. Three header rows, the continuation mark, a spacer and four rows of
/// details are reserved, so that a full frame never scrolls the terminal.
pub fn picker_viewport(terminal_rows: usize) -> (r: usize)
    ensures
        r == viewport_for(terminal_rows as int),
{
    if terminal_rows <= 10 {
        1
    } else if terminal_rows >= 509 {
        500
    } else {
        terminal_rows - 9
    }
}

/// Whether a directory is deep enough to be measured: vendors name places such as the directory of
/// all programs.
pub fn location_computable(location: &str) -> (r: bool)
    ensures
        exists|p: PathRow|
            #[trigger] reads_as(location@, p) && r == (name_count(p.parts) >= 2),
{
    let p = PathParts::parse(location);
    let ghost parts = p@.parts;
    let ghost normal = |x: crate::paths::PartRow| x.kind == PartKind::Normal;
    let mut n: usize = 0;
    assert(parts.take(0).filter(normal).len() == 0) by {
        reveal(Seq::filter);
    }
    for i in 0..p.parts.len()
        invariant
            parts == p@.parts,
            normal == (|x: crate::paths::PartRow| x.kind == PartKind::Normal),
            n == parts.take(i as int).filter(normal).len(),
            n <= i,
    {
        assert(parts[i as int] == p.parts@[i as int]@);
        proof {
            assert(parts.take(i + 1).drop_last() =~= parts.take(i as int));
            reveal(Seq::filter);
        }
        if matches!(p.parts[i].kind, PartKind::Normal) {
            n = n + 1;
        }
    }
    assert(parts.take(parts.len() as int) =~= parts);
    assert(reads_as(location@, p@));
    n >= 2
}

/// A size, or a dash where it is not known.
pub open spec fn size_cell(size: Option<u64>) -> Seq<char> {
    match size {
        Some(n) => size_text(n as nat),
        None => "-"@,
    }
}

/// A size, or a dash where it is not known.
pub fn size_or_dash(size: Option<u64>) -> (r: String)
    ensures
        r@ == size_cell(size),
{
    match size {
        Some(n) => fmt_size(n),
        None => "-".to_string(),
    }
}

/// What the applications hold together, as far as it is known.
pub open spec fn known_total(apps: Seq<AppRow>) -> nat
    decreases apps.len(),
{
    if apps.len() == 0 {
        0
    } else {
        known_total(apps.drop_last()) + match apps.last().size_bytes {
            Some(n) => n as nat,
            None => 0,
        }
    }
}

/// What the marked applications hold together, as far as it is known.
pub open spec fn marked_total(apps: Seq<AppRow>, selected: Seq<Seq<char>>) -> nat
    decreases apps.len(),
{
    if apps.len() == 0 {
        0
    } else {
        marked_total(apps.drop_last(), selected) + match apps.last().size_bytes {
            Some(n) => if selected.contains(row_key(apps.last())) {
                n as nat
            } else {
                0
            },
            None => 0,
        }
    }
}

/// The places of the marked applications, in list order.
pub open spec fn marked_places(apps: Seq<AppRow>, selected: Seq<Seq<char>>) -> Seq<usize>
    decreases apps.len(),
{
    if apps.len() == 0 {
        seq![]
    } else {
        let front = marked_places(apps.drop_last(), selected);
        if selected.contains(row_key(apps.last())) {
            front.push((apps.len() - 1) as usize)
        } else {
            front
        }
    }
}

/// What the applications hold together, as far as it is known, held at the largest that 64 bits can
/// tell.
pub fn total_of(apps: &Vec<AppEntry>) -> (r: u64)
    ensures
        r == held(known_total(app_rows(apps@))),
{
    let mut sum: u64 = 0;
    let ghost all = app_rows(apps@);
    assert(all.take(0) =~= Seq::<AppRow>::empty());
    for i in 0..apps.len()
        invariant
            all == app_rows(apps@),
            sum == held(known_total(all.take(i as int))),
    {
        assert(all.take(i + 1).drop_last() =~= all.take(i as int));
        assert(all.take(i + 1).last() == apps@[i as int]@);
        if let Some(n) = apps[i].size_bytes {
            sum = plus(sum, n);
        }
    }
    assert(all.take(all.len() as int) =~= all);
    sum
}

fn total_of_marked(apps: &Vec<AppEntry>, selected: &Vec<String>) -> (r: u64)
    ensures
        r == held(marked_total(app_rows(apps@), texts(selected@))),
{
    let mut sum: u64 = 0;
    let ghost all = app_rows(apps@);
    assert(all.take(0) =~= Seq::<AppRow>::empty());
    for i in 0..apps.len()
        invariant
            all == app_rows(apps@),
            sum == held(marked_total(all.take(i as int), texts(selected@))),
    {
        assert(all.take(i + 1).drop_last() =~= all.take(i as int));
        assert(all.take(i + 1).last() == apps@[i as int]@);
        if let Some(n) = apps[i].size_bytes {
            if has_text(selected, entry_key(&apps[i]).as_str()) {
                sum = plus(sum, n);
            }
        }
    }
    assert(all.take(all.len() as int) =~= all);
    sum
}

fn places_of_marked(apps: &Vec<AppEntry>, selected: &Vec<String>) -> (r: Vec<usize>)
    ensures
        r@ == marked_places(app_rows(apps@), texts(selected@)),
{
    let mut out: Vec<usize> = Vec::new();
    let ghost all = app_rows(apps@);
    assert(all.take(0) =~= Seq::<AppRow>::empty());
    for i in 0..apps.len()
        invariant
            all == app_rows(apps@),
            out@ == marked_places(all.take(i as int), texts(selected@)),
    {
        assert(all.take(i + 1).drop_last() =~= all.take(i as int));
        assert(all.take(i + 1).last() == apps@[i as int]@);
        if has_text(selected, entry_key(&apps[i]).as_str()) {
            out.push(i);
        }
    }
    assert(all.take(all.len() as int) =~= all);
    out
}

// ---------------------------------------------------------------------------
// State
// ---------------------------------------------------------------------------

/// The state of the picker.
pub struct Picker {
    pub cursor: usize,
    /// The first row that is shown.
    pub offset: usize,
    /// The keys of the marked rows, each once.
    pub selected: Vec<String>,
    /// What the last key press came to, shown once.
    pub message: String,
    /// The directories that were measured, so that none is measured twice.
    pub attempted: Vec<String>,
}

/// The state as mathematical data.
pub struct PickerRow {
    pub cursor: int,
    pub offset: int,
    pub selected: Seq<Seq<char>>,
    pub message: Seq<char>,
    pub attempted: Seq<Seq<char>>,
}

impl View for Picker {
    type V = PickerRow;

    open spec fn view(&self) -> PickerRow {
        PickerRow {
            cursor: self.cursor as int,
            offset: self.offset as int,
            selected: texts(self.selected@),
            message: self.message@,
            attempted: texts(self.attempted@),
        }
    }
}

/// The cursor on a row that exists, and the shown rows moved so that it is among them.
pub open spec fn in_view(p: PickerRow, count: int, viewport: int) -> PickerRow {
    let cursor = if p.cursor < count {
        p.cursor
    } else {
        count - 1
    };
    let above = if cursor < p.offset {
        cursor
    } else {
        p.offset
    };
    let offset = if cursor >= above + viewport {
        cursor + 1 - viewport
    } else {
        above
    };
    PickerRow { cursor, offset, ..p }
}

/// The size of the application is still to be measured.
pub open spec fn to_measure(p: PickerRow, a: AppRow, place: PathRow) -> bool {
    a.size_bytes is None && a.location.len() > 0 && name_count(place.parts) >= 2
        && !p.attempted.contains(a.location)
}

/// What a key press comes to.
pub enum Pick {
    /// The picker goes on.
    Stay,
    /// The picker ends with the rows at these places; none means that the user quit.
    Leave(Vec<usize>),
}

/// What a key press comes to, as mathematical data.
pub enum PickRow {
    Stay,
    Leave(Seq<usize>),
}

impl View for Pick {
    type V = PickRow;

    open spec fn view(&self) -> PickRow {
        match self {
            Pick::Stay => PickRow::Stay,
            Pick::Leave(v) => PickRow::Leave(v@),
        }
    }
}

/// The list without a text.
pub open spec fn without(s: Seq<Seq<char>>, x: Seq<char>) -> Seq<Seq<char>>
    decreases s.len(),
{
    if s.len() == 0 {
        seq![]
    } else if s.last() == x {
        without(s.drop_last(), x)
    } else {
        without(s.drop_last(), x).push(s.last())
    }
}

/// The marks after the mark of a row was turned over.
pub open spec fn toggled(selected: Seq<Seq<char>>, key: Seq<char>) -> Seq<Seq<char>> {
    if selected.contains(key) {
        without(selected, key)
    } else {
        selected.push(key)
    }
}

/// What the picker says of a mark that was turned over.
pub open spec fn toggle_message(
    apps: Seq<AppRow>,
    name: Seq<char>,
    was_marked: bool,
    selected: Seq<Seq<char>>,
) -> Seq<char> {
    let said = if was_marked {
        "○ unselected "@ + name
    } else {
        "● selected "@ + name
    };
    if selected.len() == 0 {
        said
    } else {
        said + " — "@ + decimal(selected.len()) + " marked, "@ + size_text(
            held(marked_total(apps, selected)),
        )
    }
}

/// One row further, as far as there are rows.
pub open spec fn one_down(cursor: int, count: int) -> int {
    if cursor + 1 < count {
        cursor + 1
    } else {
        count - 1
    }
}

/// The state after a key press, and what it comes to.
pub open spec fn pressed(p: PickerRow, apps: Seq<AppRow>, viewport: int, key: Key) -> (
    PickerRow,
    PickRow,
) {
    let n = apps.len() as int;
    let q = PickerRow { message: seq![], ..p };
    match key {
        Key::Quit => (q, PickRow::Leave(seq![])),
        Key::Down => (PickerRow { cursor: one_down(p.cursor, n), ..q }, PickRow::Stay),
        Key::Up => (
            PickerRow {
                cursor: if p.cursor > 0 {
                    p.cursor - 1
                } else {
                    0
                },
                ..q
            },
            PickRow::Stay,
        ),
        Key::PageDown => (
            PickerRow {
                cursor: if p.cursor + viewport < n {
                    p.cursor + viewport
                } else {
                    n - 1
                },
                ..q
            },
            PickRow::Stay,
        ),
        Key::PageUp => (
            PickerRow {
                cursor: if p.cursor > viewport {
                    p.cursor - viewport
                } else {
                    0
                },
                ..q
            },
            PickRow::Stay,
        ),
        Key::Top => (PickerRow { cursor: 0, ..q }, PickRow::Stay),
        Key::Bottom => (PickerRow { cursor: n - 1, ..q }, PickRow::Stay),
        Key::Space => {
            let a = apps[p.cursor];
            let selected = toggled(p.selected, row_key(a));
            (
                PickerRow {
                    cursor: one_down(p.cursor, n),
                    selected,
                    message: toggle_message(
                        apps,
                        a.name,
                        p.selected.contains(row_key(a)),
                        selected,
                    ),
                    ..q
                },
                PickRow::Stay,
            )
        },
        Key::Enter | Key::Right => (
            q,
            PickRow::Leave(
                if p.selected.len() == 0 {
                    seq![p.cursor as usize]
                } else {
                    marked_places(apps, p.selected)
                },
            ),
        ),
        Key::Number(_) | Key::Left | Key::Other => (q, PickRow::Stay),
    }
}

fn remove_text(list: &Vec<String>, x: &str) -> (r: Vec<String>)
    ensures
        texts(r@) == without(texts(list@), x@),
{
    let mut out = no_texts();
    let ghost all = texts(list@);
    assert(all.take(0) =~= Seq::<Seq<char>>::empty());
    for i in 0..list.len()
        invariant
            all == texts(list@),
            texts(out@) == without(all.take(i as int), x@),
    {
        assert(all.take(i + 1).drop_last() =~= all.take(i as int));
        assert(all.take(i + 1).last() == list@[i as int]@);
        if !str_eq(list[i].as_str(), x) {
            push_text(&mut out, list[i].clone());
        }
    }
    assert(all.take(all.len() as int) =~= all);
    out
}

fn blank() -> (r: String)
    ensures
        r@ == Seq::<char>::empty(),
{
    let r = String::new();
    assert(r@ =~= Seq::<char>::empty());
    r
}

impl Picker {
    pub fn new() -> (r: Picker)
        ensures
            r@ == (PickerRow {
                cursor: 0,
                offset: 0,
                selected: seq![],
                message: seq![],
                attempted: seq![],
            }),
    {
        Picker {
            cursor: 0,
            offset: 0,
            selected: no_texts(),
            message: blank(),
            attempted: no_texts(),
        }
    }

    /// Puts the cursor on a row that exists, and moves the shown rows so that it is among them.
    pub fn bring_into_view(&mut self, count: usize, viewport: usize)
        requires
            count > 0,
            viewport > 0,
        ensures
            final(self)@ == in_view(old(self)@, count as int, viewport as int),
    {
        if self.cursor >= count {
            self.cursor = count - 1;
        }
        if self.cursor < self.offset {
            self.offset = self.cursor;
        }
        if self.cursor - self.offset >= viewport {
            self.offset = self.cursor - (viewport - 1);
        }
    }

    /// Whether the size of the row under the cursor is still to be measured.
    pub fn needs_size(&self, apps: &Vec<AppEntry>) -> (r: bool)
        requires
            self.cursor < apps@.len(),
        ensures
            exists|place: PathRow|
                #[trigger] reads_as(apps@[self.cursor as int]@.location, place) && r == to_measure(
                    self@,
                    apps@[self.cursor as int]@,
                    place,
                ),
    {
        let app = &apps[self.cursor];
        let deep = location_computable(app.location.as_str());
        let ghost place = choose|p: PathRow|
            #[trigger] reads_as(app@.location, p) && deep == (name_count(p.parts) >= 2);
        assert(reads_as(app@.location, place));
        app.size_bytes.is_none() && chars_of(app.location.as_str()).len() > 0 && deep && !has_text(
            &self.attempted,
            app.location.as_str(),
        )
    }

    /// Takes in what was found at the place of the row under the cursor. A directory that is there
    /// gives the row its size; the list is sorted anew, and the cursor follows the row. A place is
    /// measured only once.
    pub fn take_size(&mut self, apps: &mut Vec<AppEntry>, found: &Option<Node>)
        requires
            old(self).cursor < old(apps)@.len(),
        ensures
            final(self)@.offset == old(self)@.offset,
            final(self)@.selected == old(self)@.selected,
            final(self)@.message == old(self)@.message,
            final(self)@.attempted == old(self)@.attempted.push(
                old(apps)@[old(self).cursor as int]@.location,
            ),
            match found {
                None => final(apps)@ == old(apps)@ && final(self)@.cursor == old(self)@.cursor,
                Some(_) => {
                    &&& exists|sized: Seq<AppEntry>|
                        is_measured(
                            sized,
                            old(apps)@,
                            old(self).cursor as int,
                            held(size_or_nothing(*found)) as u64,
                        ) && #[trigger] is_sorted_form(final(apps)@, sized)
                    &&& final(self)@.cursor == place_or(
                        app_rows(final(apps)@),
                        old(apps)@[old(self).cursor as int]@.location,
                        old(self)@.cursor,
                    )
                },
            },
    {
        let location = apps[self.cursor].location.clone();
        push_text(&mut self.attempted, location.clone());
        if found.is_some() {
            let size = entry_size(found);
            let ghost before = apps@;
            let at = self.cursor;
            apps[at].size_bytes = Some(size);
            let ghost sized = apps@;
            assert(is_measured(sized, before, at as int, size)) by {
                assert(sized[at as int]@ == (AppRow {
                    size_bytes: Some(size),
                    ..before[at as int]@
                }));
            }
            sort_apps(apps);
            assert(is_sorted_form(apps@, sized));
            self.cursor = place_of_location(apps, location.as_str(), self.cursor);
        }
    }

    /// Takes in a key press.
    pub fn press(&mut self, apps: &Vec<AppEntry>, viewport: usize, key: Key) -> (r: Pick)
        requires
            old(self).cursor < apps@.len(),
        ensures
            (final(self)@, r@) == pressed(old(self)@, app_rows(apps@), viewport as int, key),
    {
        let n = apps.len();
        self.message = blank();
        match key {
            Key::Quit => {
                let none: Vec<usize> = Vec::new();
                assert(none@ =~= Seq::<usize>::empty());
                return Pick::Leave(none);
            },
            Key::Down => {
                if self.cursor + 1 < n {
                    self.cursor = self.cursor + 1;
                } else {
                    self.cursor = n - 1;
                }
            },
            Key::Up => {
                if self.cursor > 0 {
                    self.cursor = self.cursor - 1;
                }
            },
            Key::PageDown => {
                if viewport < n - self.cursor {
                    self.cursor = self.cursor + viewport;
                } else {
                    self.cursor = n - 1;
                }
            },
            Key::PageUp => {
                if self.cursor > viewport {
                    self.cursor = self.cursor - viewport;
                } else {
                    self.cursor = 0;
                }
            },
            Key::Top => {
                self.cursor = 0;
            },
            Key::Bottom => {
                self.cursor = n - 1;
            },
            Key::Space => {
                assert(app_rows(apps@)[self.cursor as int] == apps@[self.cursor as int]@);
                let app = &apps[self.cursor];
                let key_text = entry_key(app);
                let mut said = if has_text(&self.selected, key_text.as_str()) {
                    self.selected = remove_text(&self.selected, key_text.as_str());
                    "○ unselected ".to_string()
                } else {
                    push_text(&mut self.selected, key_text);
                    "● selected ".to_string()
                };
                said.append(app.name.as_str());
                if self.selected.len() > 0 {
                    let total = total_of_marked(apps, &self.selected);
                    said.append(" — ");
                    said.append(decimal_of(self.selected.len() as u64).as_str());
                    said.append(" marked, ");
                    said.append(fmt_size(total).as_str());
                }
                self.message = said;
                if self.cursor + 1 < n {
                    self.cursor = self.cursor + 1;
                } else {
                    self.cursor = n - 1;
                }
            },
            Key::Enter | Key::Right => {
                if self.selected.len() == 0 {
                    let one: Vec<usize> = vec![self.cursor];
                    assert(one@ =~= seq![self.cursor]);
                    return Pick::Leave(one);
                }
                return Pick::Leave(places_of_marked(apps, &self.selected));
            },
            Key::Number(_) | Key::Left | Key::Other => {},
        }
        Pick::Stay
    }
}

/// The list is the other, with the size of one application filled in.
pub open spec fn is_measured(
    after: Seq<AppEntry>,
    before: Seq<AppEntry>,
    at: int,
    size: u64,
) -> bool {
    &&& after.len() == before.len()
    &&& forall|i: int| 0 <= i < before.len() && i != at ==> #[trigger] after[i] == before[i]
    &&& after[at]@ == (AppRow { size_bytes: Some(size), ..before[at]@ })
}

/// The place of the first application at the location, or the given one where there is none.
pub open spec fn place_or(apps: Seq<AppRow>, location: Seq<char>, otherwise: int) -> int
    decreases apps.len(),
{
    if apps.len() == 0 {
        otherwise
    } else {
        let front = apps.drop_last();
        if is_somewhere(front, location) {
            place_or(front, location, otherwise)
        } else if apps.last().location == location {
            apps.len() - 1
        } else {
            otherwise
        }
    }
}

/// An application is at the location.
pub open spec fn is_somewhere(apps: Seq<AppRow>, location: Seq<char>) -> bool {
    exists|i: int| 0 <= i < apps.len() && (#[trigger] apps[i]).location == location
}

proof fn lemma_place_or(apps: Seq<AppRow>, location: Seq<char>, otherwise: int, k: int)
    requires
        0 <= k <= apps.len(),
        forall|j: int| 0 <= j < k ==> (#[trigger] apps[j]).location != location,
        k < apps.len() ==> apps[k].location == location,
    ensures
        place_or(apps, location, otherwise) == (if k < apps.len() {
            k
        } else {
            otherwise
        }),
    decreases apps.len(),
{
    if apps.len() > 0 {
        let front = apps.drop_last();
        if k < front.len() {
            assert(front[k].location == location);
            assert forall|j: int| 0 <= j < k implies (#[trigger] front[j]).location != location by {
                assert(front[j] == apps[j]);
            }
            lemma_place_or(front, location, otherwise, k);
        } else {
            assert forall|j: int| 0 <= j < front.len() implies (#[trigger] front[j]).location
                != location by {
                assert(front[j] == apps[j]);
            }
        }
    }
}

fn place_of_location(apps: &Vec<AppEntry>, location: &str, otherwise: usize) -> (r: usize)
    ensures
        r == place_or(app_rows(apps@), location@, otherwise as int),
{
    let ghost all = app_rows(apps@);
    let mut i: usize = 0;
    while i < apps.len() && !str_eq(apps[i].location.as_str(), location)
        invariant
            i <= apps@.len(),
            all == app_rows(apps@),
            forall|j: int| 0 <= j < i ==> (#[trigger] all[j]).location != location@,
        decreases apps@.len() - i,
    {
        assert(all[i as int] == apps@[i as int]@);
        i = i + 1;
    }
    proof {
        if i < apps@.len() {
            assert(all[i as int] == apps@[i as int]@);
        }
        lemma_place_or(all, location@, otherwise as int, i as int);
    }
    if i < apps.len() {
        i
    } else {
        otherwise
    }
}

// ---------------------------------------------------------------------------
// The frame
// ---------------------------------------------------------------------------

/// The line of an application.
pub open spec fn app_line(a: AppRow, marked: bool, size: Seq<char>) -> Seq<char> {
    (if marked {
        "●"@
    } else {
        " "@
    }) + " "@ + padded(truncated(a.name, 44), 44) + " "@ + padded(truncated(a.version, 14), 14)
        + " "@ + right_aligned(size, 10) + "  "@ + a.source.label_text()
}

/// The row of an application: the one under the cursor in reverse, marked ones in colour.
pub open spec fn app_row(
    a: AppRow,
    on: bool,
    at_cursor: bool,
    computing: bool,
    marked: bool,
) -> Seq<char> {
    let size = if at_cursor && computing {
        "…"@
    } else {
        size_cell(a.size_bytes)
    };
    let line = app_line(a, marked, size);
    if at_cursor {
        painted(on, "7"@, " ❯ "@ + line) + "\r\n"@
    } else if marked {
        "   "@ + painted(on, "36"@, line) + "\r\n"@
    } else {
        "   "@ + line + "\r\n"@
    }
}

/// The rows of the applications from one place up to another.
pub open spec fn app_rows_text(
    apps: Seq<AppRow>,
    on: bool,
    cursor: int,
    computing: bool,
    selected: Seq<Seq<char>>,
    from: int,
    to: int,
) -> Seq<char>
    decreases to - from,
{
    if to <= from {
        seq![]
    } else {
        app_rows_text(apps, on, cursor, computing, selected, from, to - 1) + app_row(
            apps[to - 1],
            on,
            to - 1 == cursor,
            computing,
            selected.contains(row_key(apps[to - 1])),
        )
    }
}

/// Where the shown rows end.
pub open spec fn shown_end(count: int, offset: int, viewport: int) -> int {
    if offset >= count {
        offset
    } else if offset + viewport < count {
        offset + viewport
    } else {
        count
    }
}

/// The keys that can be pressed.
pub open spec fn picker_hint(marked: nat) -> Seq<char> {
    if marked == 0 {
        "j/k move · Space select · Enter uninstall · g/G jump · q quit"@
    } else {
        decimal(marked) + " marked · Enter uninstalls them · Space toggle · q quit"@
    }
}

/// The title, the hint and a blank row.
pub open spec fn picker_head(apps: Seq<AppRow>, on: bool, marked: nat) -> Seq<char> {
    "\x1b[H\x1b[2J"@ + painted(on, "1"@, "Apps"@) + "  "@ + painted(
        on,
        "2"@,
        decimal(apps.len()) + " apps · "@ + size_text(held(known_total(apps))),
    ) + "\r\n"@ + painted(on, "2"@, picker_hint(marked)) + "\r\n\r\n"@
}

/// How many rows were shown, where that is not all.
pub open spec fn picker_more(on: bool, count: int, end: int) -> Seq<char> {
    if end < count {
        painted(
            on,
            "2"@,
            "   … "@ + decimal(end as nat) + "/"@ + decimal(count as nat) + " shown"@,
        ) + "\r\n"@
    } else {
        seq![]
    }
}

/// A row of the footer; an empty text has none.
pub open spec fn foot_row(on: bool, code: Seq<char>, text: Seq<char>) -> Seq<char> {
    if text.len() == 0 {
        seq![]
    } else {
        painted(on, code, text) + "\r\n"@
    }
}

/// Publisher and date, as far as they are known.
pub open spec fn picker_meta(a: AppRow) -> Seq<char> {
    let publisher = if a.publisher.len() == 0 {
        seq![]
    } else {
        seq![a.publisher]
    };
    let all = match a.install_date {
        Some(d) => publisher.push("installed "@ + d),
        None => publisher,
    };
    joined(all, " · "@)
}

/// Everything that is known of the application under the cursor.
pub open spec fn picker_foot(a: AppRow, on: bool, computing: bool, message: Seq<char>) -> Seq<char> {
    "\r\n"@ + foot_row(
        on,
        "2"@,
        if a.location.len() == 0 {
            seq![]
        } else {
            "location  "@ + truncated(a.location, 100)
        },
    ) + foot_row(
        on,
        "2"@,
        if computing {
            "computing size…"@
        } else {
            seq![]
        },
    ) + foot_row(on, "33"@, message) + foot_row(on, "2"@, picker_meta(a))
}

/// The text without a line break at its end: a break on the last row would scroll the terminal.
pub open spec fn without_break(s: Seq<char>) -> Seq<char> {
    if has_suffix(s, "\r\n"@) {
        s.take(s.len() - 2)
    } else {
        s
    }
}

/// The frame of the picker.
pub open spec fn picker_frame(
    apps: Seq<AppRow>,
    on: bool,
    cursor: int,
    offset: int,
    viewport: int,
    computing: bool,
    selected: Seq<Seq<char>>,
    message: Seq<char>,
) -> Seq<char> {
    let end = shown_end(apps.len() as int, offset, viewport);
    without_break(
        picker_head(apps, on, selected.len()) + app_rows_text(
            apps,
            on,
            cursor,
            computing,
            selected,
            offset,
            end,
        ) + picker_more(on, apps.len() as int, offset + viewport) + picker_foot(
            apps[cursor],
            on,
            computing,
            message,
        ),
    )
}

fn render_row(
    app: &AppEntry,
    style: &Style,
    at_cursor: bool,
    computing: bool,
    marked: bool,
) -> (r: String)
    ensures
        r@ == app_row(app@, style.on, at_cursor, computing, marked),
{
    let size = if at_cursor && computing {
        "…".to_string()
    } else {
        size_or_dash(app.size_bytes)
    };
    let mut line = if marked {
        "●".to_string()
    } else {
        " ".to_string()
    };
    line.append(" ");
    line.append(
        pad_to_width(truncate_width(app.name.as_str(), 44).as_str(), 44).as_str(),
    );
    line.append(" ");
    line.append(
        pad_to_width(truncate_width(app.version.as_str(), 14).as_str(), 14).as_str(),
    );
    line.append(" ");
    line.append(align_right(size.as_str(), 10).as_str());
    line.append("  ");
    line.append(app.source.label());
    let mut out = if at_cursor {
        let mut inner = " ❯ ".to_string();
        inner.append(line.as_str());
        style.invert(inner.as_str())
    } else if marked {
        let mut inner = "   ".to_string();
        inner.append(style.cyan(line.as_str()).as_str());
        inner
    } else {
        let mut inner = "   ".to_string();
        inner.append(line.as_str());
        inner
    };
    out.append("\r\n");
    out
}

fn render_foot_row(style: &Style, code: bool, text: &str) -> (r: String)
    ensures
        r@ == foot_row(
            style.on,
            if code {
                "33"@
            } else {
                "2"@
            },
            text@,
        ),
{
    if chars_of(text).len() == 0 {
        return blank();
    }
    let mut out = if code {
        style.yellow(text)
    } else {
        style.dim(text)
    };
    out.append("\r\n");
    out
}

fn render_meta(app: &AppEntry) -> (r: String)
    ensures
        r@ == picker_meta(app@),
{
    let mut meta = no_texts();
    if chars_of(app.publisher.as_str()).len() > 0 {
        push_text(&mut meta, app.publisher.clone());
    }
    assert(texts(meta@) =~= (if app@.publisher.len() == 0 {
        Seq::<Seq<char>>::empty()
    } else {
        seq![app@.publisher]
    }));
    if let Some(date) = &app.install_date {
        let mut said = "installed ".to_string();
        said.append(date.as_str());
        push_text(&mut meta, said);
    }
    join(&meta, " · ")
}

fn render_foot(app: &AppEntry, style: &Style, computing: bool, message: &str) -> (r: String)
    ensures
        r@ == picker_foot(app@, style.on, computing, message@),
{
    let place = if chars_of(app.location.as_str()).len() == 0 {
        blank()
    } else {
        let mut said = "location  ".to_string();
        said.append(truncate_width(app.location.as_str(), 100).as_str());
        said
    };
    let busy = if computing {
        "computing size…".to_string()
    } else {
        blank()
    };
    let mut out = "\r\n".to_string();
    out.append(render_foot_row(style, false, place.as_str()).as_str());
    out.append(render_foot_row(style, false, busy.as_str()).as_str());
    out.append(render_foot_row(style, true, message).as_str());
    out.append(render_foot_row(style, false, render_meta(app).as_str()).as_str());
    out
}

fn render_head(apps: &Vec<AppEntry>, style: &Style, marked: usize) -> (r: String)
    ensures
        r@ == picker_head(app_rows(apps@), style.on, marked as nat),
{
    let mut count = decimal_of(apps.len() as u64);
    count.append(" apps · ");
    count.append(fmt_size(total_of(apps)).as_str());
    let hint = if marked == 0 {
        "j/k move · Space select · Enter uninstall · g/G jump · q quit".to_string()
    } else {
        let mut h = decimal_of(marked as u64);
        h.append(" marked · Enter uninstalls them · Space toggle · q quit");
        h
    };
    let mut out = "\x1b[H\x1b[2J".to_string();
    out.append(style.bold("Apps").as_str());
    out.append("  ");
    out.append(style.dim(count.as_str()).as_str());
    out.append("\r\n");
    out.append(style.dim(hint.as_str()).as_str());
    out.append("\r\n\r\n");
    out
}

fn render_more(style: &Style, count: usize, end: usize) -> (r: String)
    ensures
        r@ == picker_more(style.on, count as int, end as int),
{
    if end >= count {
        return blank();
    }
    let mut said = "   … ".to_string();
    said.append(decimal_of(end as u64).as_str());
    said.append("/");
    said.append(decimal_of(count as u64).as_str());
    said.append(" shown");
    let mut out = style.dim(said.as_str());
    out.append("\r\n");
    out
}

fn drop_break(text: &str) -> (r: String)
    ensures
        r@ == without_break(text@),
{
    let cs = chars_of(text);
    if ends_with(cs.as_slice(), "\r\n") {
        proof {
            reveal_strlit("\r\n");
        }
        let front = vstd::slice::slice_subrange(cs.as_slice(), 0, cs.len() - 2);
        assert(front@ =~= text@.take(text@.len() - 2));
        return string_of(front);
    }
    string_of(cs.as_slice())
}

/// The frame of the picker.
pub fn render_picker(
    apps: &Vec<AppEntry>,
    style: &Style,
    cursor: usize,
    offset: usize,
    viewport: usize,
    computing: bool,
    selected: &Vec<String>,
    message: &str,
) -> (r: String)
    requires
        cursor < apps@.len(),
        offset + viewport <= usize::MAX,
    ensures
        r@ == picker_frame(
            app_rows(apps@),
            style.on,
            cursor as int,
            offset as int,
            viewport as int,
            computing,
            texts(selected@),
            message@,
        ),
{
    let ghost all = app_rows(apps@);
    let ghost keys = texts(selected@);
    let mut out = render_head(apps, style, selected.len());
    let ghost head = out@;
    let end = if offset >= apps.len() {
        offset
    } else if offset + viewport < apps.len() {
        offset + viewport
    } else {
        apps.len()
    };
    let mut i: usize = offset;
    assert(head + Seq::<char>::empty() =~= head);
    while i < end
        invariant
            offset <= i <= end,
            end <= apps@.len() || end == offset,
            all == app_rows(apps@),
            keys == texts(selected@),
            out@ == head + app_rows_text(
                all,
                style.on,
                cursor as int,
                computing,
                keys,
                offset as int,
                i as int,
            ),
        decreases end - i,
    {
        assert(all[i as int] == apps@[i as int]@);
        let marked = has_text(selected, entry_key(&apps[i]).as_str());
        let row = render_row(&apps[i], style, i == cursor, computing, marked);
        let ghost before = app_rows_text(
            all,
            style.on,
            cursor as int,
            computing,
            keys,
            offset as int,
            i as int,
        );
        out.append(row.as_str());
        assert(head + before + row@ =~= head + (before + row@));
        i = i + 1;
    }
    out.append(render_more(style, apps.len(), offset + viewport).as_str());
    assert(all[cursor as int] == apps@[cursor as int]@);
    out.append(render_foot(&apps[cursor], style, computing, message).as_str());
    drop_break(out.as_str())
}

// ---------------------------------------------------------------------------
// Laws
// ---------------------------------------------------------------------------

/// No text of the application holds a line break.
pub open spec fn single_lined(a: AppRow) -> bool {
    one_line(a.name) && one_line(a.version) && one_line(a.location) && one_line(a.publisher) && (
    match a.install_date {
        Some(d) => one_line(d),
        None => true,
    })
}

/// The text ends with a line feed.
spec fn ends_line(s: Seq<char>) -> bool {
    s.len() > 0 && s.last() == '\n'
}

proof fn lemma_crlf()
    ensures
        breaks("\r\n"@) == 1,
        breaks("\r\n\r\n"@) == 2,
        "\r\n"@ == seq!['\r', '\n'],
        ends_line("\r\n"@),
        ends_line("\r\n\r\n"@),
{
    reveal_strlit("\r\n");
    reveal_strlit("\r\n\r\n");
    reveal_with_fuel(breaks, 5);
    assert("\r\n"@ =~= seq!['\r', '\n']);
}

/// A line with its break behind it.
proof fn lemma_broken(body: Seq<char>)
    ensures
        breaks(body + "\r\n"@) == breaks(body) + 1,
        ends_line(body + "\r\n"@),
{
    lemma_crlf();
    lemma_breaks_add(body, "\r\n"@);
}

/// What stands behind a line feed adds its own breaks.
proof fn lemma_next_line(a: Seq<char>, b: Seq<char>)
    requires
        ends_line(a),
        b.len() == 0 || ends_line(b),
    ensures
        breaks(a + b) == breaks(a) + breaks(b),
        ends_line(a + b),
{
    lemma_breaks_add(a, b);
    if b.len() == 0 {
        assert(a + b =~= a);
    }
}

proof fn lemma_label_line(s: crate::apps::Source)
    ensures
        no_feed(s.label_text()),
{
    reveal_strlit("system");
    reveal_strlit("sys32");
    reveal_strlit("user");
    reveal_strlit("steam");
    reveal_strlit("portable");
}

proof fn lemma_line(a: AppRow, marked: bool, size: Seq<char>)
    requires
        single_lined(a),
        no_feed(size),
    ensures
        one_line(app_line(a, marked, size)),
        app_line(a, marked, size)[0] != '\n',
        app_line(a, marked, size).len() > 0,
{
    reveal_strlit("●");
    reveal_strlit(" ");
    reveal_strlit("  ");
    let mark = if marked {
        "●"@
    } else {
        " "@
    };
    let name = padded(truncated(a.name, 44), 44);
    let version = padded(truncated(a.version, 14), 14);
    let cell = right_aligned(size, 10);
    lemma_truncated_line(a.name, 44);
    lemma_padded_line(truncated(a.name, 44), 44);
    lemma_truncated_line(a.version, 14);
    lemma_padded_line(truncated(a.version, 14), 14);
    lemma_aligned_line(size, 10);
    lemma_label_line(a.source);
    let front = mark + " "@;
    let tail = " "@ + cell + "  "@ + a.source.label_text();
    lemma_no_feed(front);
    lemma_no_feed(" "@);
    lemma_no_feed(tail);
    lemma_one_line_add(front, name);
    lemma_one_line_add(front + name, " "@);
    lemma_one_line_add(front + name + " "@, version);
    lemma_one_line_add(front + name + " "@ + version, tail);
    assert(front + name + " "@ + version + tail =~= app_line(a, marked, size));
}

proof fn lemma_row_breaks(a: AppRow, on: bool, at_cursor: bool, computing: bool, marked: bool)
    requires
        single_lined(a),
    ensures
        breaks(app_row(a, on, at_cursor, computing, marked)) == 1,
        ends_line(app_row(a, on, at_cursor, computing, marked)),
{
    let size = if at_cursor && computing {
        "…"@
    } else {
        size_cell(a.size_bytes)
    };
    reveal_strlit("…");
    reveal_strlit("-");
    reveal_strlit("   ");
    reveal_strlit(" ❯ ");
    reveal_strlit("7");
    reveal_strlit("36");
    if let Some(n) = a.size_bytes {
        lemma_size_line(n as nat);
    }
    let line = app_line(a, marked, size);
    lemma_line(a, marked, size);
    lemma_no_feed("   "@);
    lemma_no_feed(" ❯ "@);
    lemma_one_line_add(" ❯ "@, line);
    lemma_painted_line(on, "7"@, " ❯ "@ + line);
    lemma_painted_line(on, "36"@, line);
    lemma_one_line_add("   "@, painted(on, "36"@, line));
    lemma_one_line_add("   "@, line);
    let body = if at_cursor {
        painted(on, "7"@, " ❯ "@ + line)
    } else if marked {
        "   "@ + painted(on, "36"@, line)
    } else {
        "   "@ + line
    };
    lemma_broken(body);
}

proof fn lemma_rows_breaks(
    apps: Seq<AppRow>,
    on: bool,
    cursor: int,
    computing: bool,
    selected: Seq<Seq<char>>,
    from: int,
    to: int,
)
    requires
        0 <= from <= to,
        to <= apps.len() || to == from,
        forall|i: int| 0 <= i < apps.len() ==> single_lined(#[trigger] apps[i]),
    ensures
        breaks(app_rows_text(apps, on, cursor, computing, selected, from, to)) == to - from,
        from < to ==> ends_line(app_rows_text(apps, on, cursor, computing, selected, from, to)),
        from >= to ==> app_rows_text(apps, on, cursor, computing, selected, from, to).len() == 0,
    decreases to - from,
{
    if from < to {
        lemma_rows_breaks(apps, on, cursor, computing, selected, from, to - 1);
        let marked = selected.contains(row_key(apps[to - 1]));
        let row = app_row(apps[to - 1], on, to - 1 == cursor, computing, marked);
        let front = app_rows_text(apps, on, cursor, computing, selected, from, to - 1);
        lemma_row_breaks(apps[to - 1], on, to - 1 == cursor, computing, marked);
        if from < to - 1 {
            lemma_next_line(front, row);
        } else {
            assert(front + row =~= row);
        }
    }
}

proof fn lemma_foot_row(on: bool, code: Seq<char>, text: Seq<char>)
    requires
        no_feed(code),
        one_line(text),
    ensures
        breaks(foot_row(on, code, text)) <= 1,
        text.len() > 0 ==> ends_line(foot_row(on, code, text)),
        text.len() == 0 ==> foot_row(on, code, text).len() == 0,
{
    lemma_painted_line(on, code, text);
    lemma_broken(painted(on, code, text));
}

proof fn lemma_head_breaks(apps: Seq<AppRow>, on: bool, marked: nat)
    ensures
        breaks(picker_head(apps, on, marked)) == 3,
        ends_line(picker_head(apps, on, marked)),
        has_prefix(picker_head(apps, on, marked), "\x1b[H\x1b[2J"@),
{
    reveal_strlit("\x1b[H\x1b[2J");
    reveal_strlit("Apps");
    reveal_strlit("  ");
    reveal_strlit("1");
    reveal_strlit("2");
    reveal_strlit(" apps · ");
    reveal_strlit("j/k move · Space select · Enter uninstall · g/G jump · q quit");
    reveal_strlit(" marked · Enter uninstalls them · Space toggle · q quit");
    let total = size_text(held(known_total(apps)));
    lemma_size_line(held(known_total(apps)));
    lemma_decimal_line(apps.len());
    lemma_decimal_line(marked);
    let count = decimal(apps.len()) + " apps · "@ + total;
    lemma_painted_no_feed(on, "1"@, "Apps"@);
    lemma_painted_no_feed(on, "2"@, count);
    lemma_painted_no_feed(on, "2"@, picker_hint(marked));
    let first = "\x1b[H\x1b[2J"@ + painted(on, "1"@, "Apps"@) + "  "@ + painted(on, "2"@, count);
    let second = painted(on, "2"@, picker_hint(marked));
    lemma_no_feed(first);
    lemma_no_feed(second);
    lemma_broken(first);
    lemma_crlf();
    lemma_breaks_add(first + "\r\n"@, second);
    reveal_strlit("\r\n\r\n");
    lemma_breaks_add(first + "\r\n"@ + second, "\r\n\r\n"@);
    let head = picker_head(apps, on, marked);
    assert(head.subrange(0, "\x1b[H\x1b[2J"@.len() as int) =~= "\x1b[H\x1b[2J"@);
}

proof fn lemma_more_breaks(on: bool, count: int, end: int)
    requires
        0 <= end,
    ensures
        breaks(picker_more(on, count, end)) <= 1,
        picker_more(on, count, end).len() == 0 || ends_line(picker_more(on, count, end)),
{
    if end < count {
        reveal_strlit("   … ");
        reveal_strlit("/");
        reveal_strlit(" shown");
        reveal_strlit("2");
        lemma_decimal_line(end as nat);
        lemma_decimal_line(count as nat);
        let said = "   … "@ + decimal(end as nat) + "/"@ + decimal(count as nat) + " shown"@;
        lemma_painted_no_feed(on, "2"@, said);
        lemma_no_feed(painted(on, "2"@, said));
        lemma_broken(painted(on, "2"@, said));
    }
}

/// What the footer says of the place of the application.
spec fn foot_place(a: AppRow) -> Seq<char> {
    if a.location.len() == 0 {
        seq![]
    } else {
        "location  "@ + truncated(a.location, 100)
    }
}

/// What the footer says while a size is measured.
spec fn foot_busy(computing: bool) -> Seq<char> {
    if computing {
        "computing size…"@
    } else {
        seq![]
    }
}

proof fn lemma_foot_texts(a: AppRow, computing: bool)
    requires
        single_lined(a),
    ensures
        one_line(foot_place(a)),
        one_line(foot_busy(computing)),
        one_line(picker_meta(a)),
{
    reveal_strlit("location  ");
    reveal_strlit("computing size…");
    reveal_strlit("installed ");
    reveal_strlit(" · ");
    lemma_truncated_line(a.location, 100);
    lemma_no_feed("location  "@);
    lemma_one_line_add("location  "@, truncated(a.location, 100));
    lemma_no_feed("computing size…"@);
    lemma_no_feed("installed "@);
    lemma_no_feed(" · "@);
    reveal_with_fuel(joined, 3);
    let publisher = if a.publisher.len() == 0 {
        Seq::<Seq<char>>::empty()
    } else {
        seq![a.publisher]
    };
    match a.install_date {
        Some(d) => {
            let said = "installed "@ + d;
            lemma_one_line_add("installed "@, d);
            let all = publisher.push(said);
            assert(all.drop_last() =~= publisher);
            if a.publisher.len() > 0 {
                lemma_one_line_add(a.publisher, " · "@);
                lemma_one_line_add(a.publisher + " · "@, said);
                assert(picker_meta(a) == a.publisher + " · "@ + said);
            } else {
                assert(picker_meta(a) == said);
            }
        },
        None => {},
    }
}

proof fn lemma_foot_breaks(a: AppRow, on: bool, computing: bool, message: Seq<char>)
    requires
        single_lined(a),
        one_line(message),
    ensures
        breaks(picker_foot(a, on, computing, message)) <= 5,
{
    reveal_strlit("2");
    reveal_strlit("33");
    lemma_foot_texts(a, computing);
    let r1 = foot_row(on, "2"@, foot_place(a));
    let r2 = foot_row(on, "2"@, foot_busy(computing));
    let r3 = foot_row(on, "33"@, message);
    let r4 = foot_row(on, "2"@, picker_meta(a));
    lemma_foot_row(on, "2"@, foot_place(a));
    lemma_foot_row(on, "2"@, foot_busy(computing));
    lemma_foot_row(on, "33"@, message);
    lemma_foot_row(on, "2"@, picker_meta(a));
    lemma_crlf();
    lemma_next_line("\r\n"@, r1);
    lemma_next_line("\r\n"@ + r1, r2);
    lemma_next_line("\r\n"@ + r1 + r2, r3);
    lemma_next_line("\r\n"@ + r1 + r2 + r3, r4);
}

/// The text has a break at its end, which is dropped.
proof fn lemma_without_break(s: Seq<char>, body: Seq<char>)
    requires
        s == body + "\r\n"@,
    ensures
        without_break(s) == body,
        breaks(s) == breaks(body) + 1,
{
    lemma_broken(body);
    lemma_crlf();
    assert(s.subrange(s.len() - 2, s.len() as int) =~= "\r\n"@);
    assert(s.take(s.len() - 2) =~= body);
}

/// A line behind a line feed does not end with a break.
proof fn lemma_no_break_at_end(front: Seq<char>, text: Seq<char>)
    requires
        ends_line(front),
        text.len() > 0,
        one_line(text),
    ensures
        !has_suffix(front + text, "\r\n"@),
{
    lemma_crlf();
    let s = front + text;
    if has_suffix(s, "\r\n"@) {
        let e = s.subrange(s.len() - 2, s.len() as int);
        assert(e[0] == '\r' && e[1] == '\n');
        assert(s[s.len() - 2] == '\r' && s[s.len() - 1] == '\n');
        if text.len() >= 2 {
            assert(s[s.len() - 2] == text[text.len() - 2]);
            assert(text.last() == '\n');
        } else {
            assert(s[s.len() - 2] == front.last());
        }
    }
}

/// The footer says something.
pub open spec fn has_details(a: AppRow, computing: bool, message: Seq<char>) -> bool {
    a.location.len() > 0 || computing || message.len() > 0 || a.publisher.len() > 0
        || a.install_date is Some
}

proof fn lemma_details(a: AppRow, computing: bool, message: Seq<char>)
    ensures
        has_details(a, computing, message) ==> foot_place(a).len() > 0 || foot_busy(computing).len()
            > 0 || message.len() > 0 || picker_meta(a).len() > 0,
{
    reveal_strlit("location  ");
    reveal_strlit("computing size…");
    reveal_strlit("installed ");
    let publisher = if a.publisher.len() == 0 {
        Seq::<Seq<char>>::empty()
    } else {
        seq![a.publisher]
    };
    if let Some(d) = a.install_date {
        let all = publisher.push("installed "@ + d);
        assert(all.last().len() > 0);
        assert(picker_meta(a) == joined(all, " · "@));
    } else {
        assert(picker_meta(a) == joined(publisher, " · "@));
    }
}

/// A row of the footer behind a line feed: without its break it ends with none.
proof fn lemma_last_row(front: Seq<char>, on: bool, code: Seq<char>, text: Seq<char>)
    requires
        ends_line(front),
        no_feed(code),
        one_line(text),
        text.len() > 0,
    ensures
        front + foot_row(on, code, text) == front + painted(on, code, text) + "\r\n"@,
        !has_suffix(front + painted(on, code, text), "\r\n"@),
{
    lemma_painted_line(on, code, text);
    lemma_no_break_at_end(front, painted(on, code, text));
    assert(front + foot_row(on, code, text) =~= front + painted(on, code, text) + "\r\n"@);
}

/// Five texts behind another may be put there one by one.
proof fn lemma_one_by_one(
    front: Seq<char>,
    a: Seq<char>,
    b: Seq<char>,
    c: Seq<char>,
    d: Seq<char>,
    e: Seq<char>,
)
    ensures
        front + (a + b + c + d + e) == front + a + b + c + d + e,
        front.is_prefix_of(front + a),
{
    assert(front + (a + b + c + d + e) =~= front + a + b + c + d + e);
    assert(front =~= (front + a).take(front.len() as int));
}

proof fn lemma_longer_prefix(front: Seq<char>, mid: Seq<char>, more: Seq<char>)
    requires
        front.is_prefix_of(mid),
    ensures
        front.is_prefix_of(mid + more),
        more.len() == 0 ==> mid + more == mid,
{
    assert(front =~= (mid + more).take(front.len() as int));
    if more.len() == 0 {
        assert(mid + more =~= mid);
    }
}

/// The footer ends with a break, and what stands in front of the break does not, where the footer says
/// something.
proof fn lemma_foot_ends(
    front: Seq<char>,
    a: AppRow,
    on: bool,
    computing: bool,
    message: Seq<char>,
) -> (body: Seq<char>)
    requires
        ends_line(front),
        single_lined(a),
        one_line(message),
    ensures
        front + picker_foot(a, on, computing, message) == body + "\r\n"@,
        front.is_prefix_of(body),
        has_details(a, computing, message) ==> !has_suffix(body, "\r\n"@),
{
    reveal_strlit("2");
    reveal_strlit("33");
    lemma_foot_texts(a, computing);
    lemma_details(a, computing, message);
    lemma_crlf();
    let place = foot_place(a);
    let busy = foot_busy(computing);
    let meta = picker_meta(a);
    let b = "\r\n"@;
    let r1 = foot_row(on, "2"@, place);
    let r2 = foot_row(on, "2"@, busy);
    let r3 = foot_row(on, "33"@, message);
    let r4 = foot_row(on, "2"@, meta);
    lemma_foot_row(on, "2"@, place);
    lemma_foot_row(on, "2"@, busy);
    lemma_foot_row(on, "33"@, message);
    lemma_foot_row(on, "2"@, meta);
    let p1 = front + b;
    let p2 = p1 + r1;
    let p3 = p2 + r2;
    let p4 = p3 + r3;
    lemma_next_line(front, b);
    lemma_next_line(p1, r1);
    lemma_next_line(p2, r2);
    lemma_next_line(p3, r3);
    lemma_one_by_one(front, b, r1, r2, r3, r4);
    lemma_longer_prefix(front, p1, r1);
    lemma_longer_prefix(front, p2, r2);
    lemma_longer_prefix(front, p3, r3);
    lemma_longer_prefix(front, p4, r4);
    assert(front + picker_foot(a, on, computing, message) == p4 + r4);
    if meta.len() > 0 {
        lemma_last_row(p4, on, "2"@, meta);
        lemma_longer_prefix(front, p4, painted(on, "2"@, meta));
        p4 + painted(on, "2"@, meta)
    } else if message.len() > 0 {
        lemma_last_row(p3, on, "33"@, message);
        lemma_longer_prefix(front, p3, painted(on, "33"@, message));
        p3 + painted(on, "33"@, message)
    } else if busy.len() > 0 {
        lemma_last_row(p2, on, "2"@, busy);
        lemma_longer_prefix(front, p2, painted(on, "2"@, busy));
        p2 + painted(on, "2"@, busy)
    } else if place.len() > 0 {
        lemma_last_row(p1, on, "2"@, place);
        lemma_longer_prefix(front, p1, painted(on, "2"@, place));
        p1 + painted(on, "2"@, place)
    } else {
        front
    }
}

/// A frame clears the screen first, takes at most nine rows more than it shows of the list, and does
/// not end with a line break where the footer says something; so nothing scrolls. Texts may hold line
/// feeds and carriage returns, as long as they hold no line break.
pub proof fn frame_has_nine_rows_besides_the_list(
    apps: Seq<AppRow>,
    on: bool,
    cursor: int,
    offset: int,
    viewport: int,
    computing: bool,
    selected: Seq<Seq<char>>,
    message: Seq<char>,
)
    requires
        0 <= cursor < apps.len(),
        0 <= offset,
        0 <= viewport,
        forall|i: int| 0 <= i < apps.len() ==> single_lined(#[trigger] apps[i]),
        one_line(message),
    ensures
        ({
            let frame = picker_frame(
                apps,
                on,
                cursor,
                offset,
                viewport,
                computing,
                selected,
                message,
            );
            &&& has_prefix(frame, "\x1b[H\x1b[2J"@)
            &&& breaks(frame) + 1 <= viewport + 9
            &&& has_details(apps[cursor], computing, message) ==> !has_suffix(frame, "\r\n"@)
        }),
{
    let end = shown_end(apps.len() as int, offset, viewport);
    let head = picker_head(apps, on, selected.len());
    let list = app_rows_text(apps, on, cursor, computing, selected, offset, end);
    let more = picker_more(on, apps.len() as int, offset + viewport);
    let foot = picker_foot(apps[cursor], on, computing, message);
    lemma_head_breaks(apps, on, selected.len());
    lemma_rows_breaks(apps, on, cursor, computing, selected, offset, end);
    lemma_more_breaks(on, apps.len() as int, offset + viewport);
    lemma_foot_breaks(apps[cursor], on, computing, message);
    lemma_next_line(head, list);
    lemma_next_line(head + list, more);
    let front = head + list + more;
    lemma_breaks_add(front, foot);
    let body = lemma_foot_ends(front, apps[cursor], on, computing, message);
    lemma_without_break(front + foot, body);
    let title = "\x1b[H\x1b[2J"@;
    assert(head.subrange(0, title.len() as int) == title);
    assert(front == body.take(front.len() as int));
    assert(body.subrange(0, title.len() as int) =~= front.subrange(0, title.len() as int));
    assert(front.subrange(0, title.len() as int) =~= head.subrange(0, title.len() as int));
}

/// A frame never takes more rows than the terminal has, so it never scrolls its title away: on a
/// terminal of ten rows or more, with as many rows of the list as `picker_viewport` allows, wherever
/// the cursor and the shown rows are.
pub proof fn frame_fits_the_terminal(
    apps: Seq<AppRow>,
    on: bool,
    cursor: int,
    offset: int,
    rows: int,
    computing: bool,
    selected: Seq<Seq<char>>,
    message: Seq<char>,
)
    requires
        rows >= 10,
        0 <= cursor < apps.len(),
        0 <= offset,
        forall|i: int| 0 <= i < apps.len() ==> single_lined(#[trigger] apps[i]),
        one_line(message),
    ensures
        breaks(
            picker_frame(
                apps,
                on,
                cursor,
                offset,
                viewport_for(rows),
                computing,
                selected,
                message,
            ),
        ) + 1 <= rows,
{
    frame_has_nine_rows_besides_the_list(
        apps,
        on,
        cursor,
        offset,
        viewport_for(rows),
        computing,
        selected,
        message,
    );
}

/// Turning a mark over changes that mark and no other.
pub proof fn toggling_changes_one_mark(selected: Seq<Seq<char>>, key: Seq<char>, other: Seq<char>)
    ensures
        toggled(selected, key).contains(key) == !selected.contains(key),
        other != key ==> toggled(selected, key).contains(other) == selected.contains(other),
{
    lemma_without(selected, key, other);
    if !selected.contains(key) {
        let t = selected.push(key);
        assert(t[t.len() - 1] == key);
        if selected.contains(other) {
            let i = choose|i: int| 0 <= i < selected.len() && selected[i] == other;
            assert(t[i] == other);
        }
        if t.contains(other) && other != key {
            let i = choose|i: int| 0 <= i < t.len() && t[i] == other;
            assert(selected[i] == other);
        }
    }
}

proof fn lemma_without(s: Seq<Seq<char>>, x: Seq<char>, other: Seq<char>)
    ensures
        !without(s, x).contains(x),
        other != x ==> without(s, x).contains(other) == s.contains(other),
    decreases s.len(),
{
    if s.len() > 0 {
        let t = s.drop_last();
        lemma_without(t, x, other);
        let w = without(s, x);
        let v = without(t, x);
        if s.last() != x {
            assert(w == v.push(s.last()));
            assert(!w.contains(x)) by {
                if w.contains(x) {
                    let i = choose|i: int| 0 <= i < w.len() && w[i] == x;
                    assert(i < v.len());
                    assert(v[i] == x);
                }
            }
        }
        if other != x {
            if s.contains(other) {
                let i = choose|i: int| 0 <= i < s.len() && s[i] == other;
                if i < t.len() {
                    assert(t[i] == other);
                    let k = choose|k: int| 0 <= k < v.len() && v[k] == other;
                    assert(w[k] == other);
                } else {
                    assert(w[w.len() - 1] == other);
                }
            }
            if w.contains(other) {
                let k = choose|k: int| 0 <= k < w.len() && w[k] == other;
                if k < v.len() {
                    assert(v[k] == other);
                    let i = choose|i: int| 0 <= i < t.len() && t[i] == other;
                    assert(s[i] == other);
                } else {
                    assert(s[s.len() - 1] == other);
                }
            }
        }
    }
}

/// The space bar marks; it never ends the picker, so it never starts an action.
pub proof fn space_never_leaves(p: PickerRow, apps: Seq<AppRow>, viewport: int)
    ensures
        pressed(p, apps, viewport, Key::Space).1 is Stay,
{
}

/// However keys are pressed, the cursor stays on a row of the list.
pub proof fn cursor_stays_in_the_list(p: PickerRow, apps: Seq<AppRow>, viewport: int, key: Key)
    requires
        0 <= p.cursor < apps.len(),
        viewport > 0,
    ensures
        0 <= pressed(p, apps, viewport, key).0.cursor < apps.len(),
{
}

/// Brought into view, the cursor is on a row that exists and among the rows that are shown.
pub proof fn cursor_is_shown(p: PickerRow, count: int, viewport: int)
    requires
        count > 0,
        viewport > 0,
        0 <= p.cursor,
        0 <= p.offset,
    ensures
        ({
            let q = in_view(p, count, viewport);
            &&& 0 <= q.cursor < count
            &&& 0 <= q.offset <= q.cursor < q.offset + viewport
        }),
{
}

/// A place that was measured is not measured again.
pub proof fn places_are_measured_once(p: PickerRow, a: AppRow, place: PathRow)
    ensures
        !to_measure(PickerRow { attempted: p.attempted.push(a.location), ..p }, a, place),
{
    let t = p.attempted.push(a.location);
    assert(t[t.len() - 1] == a.location);
}

/// What is marked is uninstalled: Enter leaves with the places of all marked rows, in list order, and,
/// where none is marked, with the row under the cursor. Quitting leaves with none.
pub proof fn enter_takes_what_is_marked(
    p: PickerRow,
    apps: Seq<AppRow>,
    viewport: int,
    i: int,
)
    requires
        apps.len() <= usize::MAX,
        0 <= p.cursor < apps.len(),
        0 <= i < apps.len(),
    ensures
        p.selected.len() == 0 ==> pressed(p, apps, viewport, Key::Enter).1 == PickRow::Leave(
            seq![p.cursor as usize],
        ),
        p.selected.len() > 0 ==> (pressed(p, apps, viewport, Key::Enter).1 matches PickRow::Leave(
            places,
        ) && (places.contains(i as usize) <==> p.selected.contains(
            apps[i].name + seq!['|'] + apps[i].location,
        )) && forall|j: int, k: int|
            0 <= j < k < places.len() ==> #[trigger] places[j] < #[trigger] places[k]),
        pressed(p, apps, viewport, Key::Right) == pressed(p, apps, viewport, Key::Enter),
        pressed(p, apps, viewport, Key::Quit).1 == PickRow::Leave(seq![]),
{
    reveal_strlit("|");
    assert("|"@ =~= seq!['|']);
    lemma_marked(apps, p.selected, i);
}

proof fn lemma_marked(apps: Seq<AppRow>, selected: Seq<Seq<char>>, i: int)
    requires
        apps.len() <= usize::MAX,
    ensures
        0 <= i < apps.len() ==> (marked_places(apps, selected).contains(i as usize)
            <==> selected.contains(row_key(apps[i]))),
        forall|j: int, k: int|
            0 <= j < k < marked_places(apps, selected).len() ==> #[trigger] marked_places(
                apps,
                selected,
            )[j] < #[trigger] marked_places(apps, selected)[k],
        forall|j: int|
            0 <= j < marked_places(apps, selected).len() ==> #[trigger] marked_places(
                apps,
                selected,
            )[j] < apps.len(),
    decreases apps.len(),
{
    if apps.len() > 0 {
        let t = apps.drop_last();
        lemma_marked(t, selected, i);
        let a = marked_places(t, selected);
        let b = marked_places(apps, selected);
        assert forall|j: int, k: int| 0 <= j < k < b.len() implies #[trigger] b[j]
            < #[trigger] b[k] by {
            assert(b[j] == a[j]);
            if k < a.len() {
                assert(b[k] == a[k]);
            }
        }
        assert forall|j: int| 0 <= j < b.len() implies #[trigger] b[j] < apps.len() by {
            if j < a.len() {
                assert(b[j] == a[j]);
            }
        }
        if 0 <= i < apps.len() {
            if i < t.len() {
                assert(t[i] == apps[i]);
                if a.contains(i as usize) {
                    let j = choose|j: int| 0 <= j < a.len() && a[j] == i as usize;
                    assert(b[j] == i as usize);
                }
                if b.contains(i as usize) {
                    let j = choose|j: int| 0 <= j < b.len() && b[j] == i as usize;
                    assert(j < a.len());
                    assert(a[j] == i as usize);
                }
            } else {
                if selected.contains(row_key(apps[i])) {
                    assert(b[a.len() as int] == i as usize);
                }
                if b.contains(i as usize) {
                    let j = choose|j: int| 0 <= j < b.len() && b[j] == i as usize;
                    if j < a.len() {
                        assert(b[j] == a[j]);
                        assert(a[j] < t.len());
                    }
                }
            }
        }
    }
}

/// What the marked applications hold adds up, and so does what all hold; an unknown size adds nothing.
pub proof fn marked_sizes_add_up(
    s: Seq<AppRow>,
    t: Seq<AppRow>,
    a: AppRow,
    selected: Seq<Seq<char>>,
)
    ensures
        marked_total(s + t, selected) == marked_total(s, selected) + marked_total(t, selected),
        known_total(s + t) == known_total(s) + known_total(t),
        a.size_bytes is None ==> known_total(seq![a]) == 0 && marked_total(seq![a], selected) == 0,
        a.size_bytes matches Some(n) ==> known_total(seq![a]) == n && marked_total(
            seq![a],
            selected,
        ) == (if selected.contains(row_key(a)) {
            n as nat
        } else {
            0
        }),
    decreases t.len(),
{
    let one = seq![a];
    assert(one.drop_last() =~= Seq::<AppRow>::empty());
    assert(known_total(one.drop_last()) == 0 && marked_total(one.drop_last(), selected) == 0);
    assert(one.last() == a);
    if t.len() > 0 {
        marked_sizes_add_up(s, t.drop_last(), a, selected);
        assert((s + t).drop_last() =~= s + t.drop_last());
    } else {
        assert(s + t =~= s);
    }
}

/// As many rows of the list are shown as fit beside nine others, at least one and at most 500.
pub proof fn the_list_fills_the_terminal(rows: int)
    ensures
        10 <= rows <= 509 ==> viewport_for(rows) == rows - 9,
        rows <= 10 ==> viewport_for(rows) == 1,
        rows >= 509 ==> viewport_for(rows) == 500,
{
}

} // verus!
