//! The menu that opens when no command is given, the settings screen, and the choice of a directory
//! to explore.

use vstd::prelude::*;

use crate::number::{align_left, decimal, decimal_of, left_aligned};
use crate::paths::{
    is_path_of, is_same_path, path_below, reads_as, same_path, PathParts, PathRow,
};
use crate::settings::{has_category, Settings, SettingsRow};
use crate::targets::{all_categories, Category};
use crate::term::Key;
use crate::text::{
    chars_of, str_texts, string_of, text_opt, trim_end_char, trim_str, trimmed, without_end,
};
use crate::ui::{painted, Style};

verus! {

/// What the menu offers.
#[derive(Clone, Copy, PartialEq, Eq, Debug, Structural)]
pub enum Action {
    Clean,
    Apps,
    Analyze,
    Ctxmenu,
    Settings,
}

pub const ITEMS: [(Action, &'static str, &'static str); 5] = [
    (Action::Clean, "Clean", "Free up disk space"),
    (Action::Apps, "Apps", "Manage or uninstall applications"),
    (Action::Analyze, "Analyze", "Explore disk usage"),
    (Action::Ctxmenu, "Context Menu", "Inspect right-click menu entries"),
    (Action::Settings, "Settings", "Change remembered preferences"),
];

/// What a key press in the menu comes to.
#[derive(Clone, Copy, PartialEq, Eq, Debug, Structural)]
pub enum MenuStep {
    /// The item at this place is now marked.
    At(usize),
    /// This action was chosen.
    Chosen(Action),
    /// The user leaves.
    Leave,
}

/// One place further, as far as there are places.
pub open spec fn next_place(at: int, count: int) -> int {
    if at + 1 < count {
        at + 1
    } else {
        count - 1
    }
}

/// One place back, as far as there are places.
pub open spec fn previous_place(at: int) -> int {
    if at > 0 {
        at - 1
    } else {
        0
    }
}

/// What a key press in the menu comes to.
pub open spec fn menu_step(selected: usize, key: Key) -> MenuStep {
    match key {
        Key::Up => MenuStep::At(previous_place(selected as int) as usize),
        Key::Down => MenuStep::At(next_place(selected as int, 5) as usize),
        Key::Top => MenuStep::At(0),
        Key::Bottom => MenuStep::At(4),
        Key::Number(n) => if 1 <= n <= 5 {
            MenuStep::Chosen(ITEMS@[n - 1].0)
        } else {
            MenuStep::At(selected)
        },
        Key::Enter | Key::Right => MenuStep::Chosen(ITEMS@[selected as int].0),
        Key::Quit | Key::Left => MenuStep::Leave,
        Key::Space | Key::PageUp | Key::PageDown | Key::Other => MenuStep::At(selected),
    }
}

/// Takes in a key press in the menu.
pub fn choose_inner(selected: usize, key: Key) -> (r: MenuStep)
    requires
        selected < 5,
    ensures
        r == menu_step(selected, key),
{
    let items = ITEMS;
    match key {
        Key::Up => MenuStep::At(
            if selected > 0 {
                selected - 1
            } else {
                0
            },
        ),
        Key::Down => MenuStep::At(
            if selected + 1 < 5 {
                selected + 1
            } else {
                4
            },
        ),
        Key::Top => MenuStep::At(0),
        Key::Bottom => MenuStep::At(4),
        Key::Number(n) => if 1 <= n && n <= 5 {
            MenuStep::Chosen(items[n as usize - 1].0)
        } else {
            MenuStep::At(selected)
        },
        Key::Enter | Key::Right => MenuStep::Chosen(items[selected].0),
        Key::Quit | Key::Left => MenuStep::Leave,
        Key::Space | Key::PageUp | Key::PageDown | Key::Other => MenuStep::At(selected),
    }
}

/// A row of a list with its number; the marked one in reverse, behind the given margin.
pub open spec fn marked_row(row: Seq<char>, marked: bool, margin: Seq<char>, on: bool) -> Seq<char> {
    if marked {
        "  "@ + painted(on, "7"@, row) + "\n"@
    } else {
        margin + row + "\n"@
    }
}

fn render_marked(row: &str, marked: bool, margin: &str, style: &Style) -> (r: String)
    ensures
        r@ == marked_row(row@, marked, margin@, style.on),
{
    if marked {
        let mut out = "  ".to_string();
        out.append(style.invert(row).as_str());
        out.append("\n");
        out
    } else {
        let mut out = margin.to_string();
        out.append(row);
        out.append("\n");
        out
    }
}

/// The row of a menu item.
pub open spec fn item_row(i: int) -> Seq<char> {
    "  "@ + decimal((i + 1) as nat) + "  "@ + left_aligned(ITEMS@[i].1@, 14) + " "@ + ITEMS@[i].2@
        + "  "@
}

pub open spec fn item_rows(selected: int, on: bool, count: int) -> Seq<char>
    decreases count,
{
    if count <= 0 {
        seq![]
    } else {
        item_rows(selected, on, count - 1) + marked_row(
            item_row(count - 1),
            count - 1 == selected,
            "  "@,
            on,
        )
    }
}

/// The screen of a list: title, subtitle, rows and hint.
pub open spec fn screen(
    title: Seq<char>,
    subtitle: Seq<char>,
    rows: Seq<char>,
    hint: Seq<char>,
    on: bool,
) -> Seq<char> {
    "\x1b[H\x1b[2J\n"@ + "  "@ + painted(on, "1"@, title) + "\n"@ + "  "@ + painted(
        on,
        "2"@,
        subtitle,
    ) + "\n\n"@ + rows + "\n  "@ + painted(on, "2"@, hint) + "\n"@
}

fn render_screen(title: &str, subtitle: &str, rows: &str, hint: &str, style: &Style) -> (r: String)
    ensures
        r@ == screen(title@, subtitle@, rows@, hint@, style.on),
{
    let mut out = "\x1b[H\x1b[2J\n".to_string();
    out.append("  ");
    out.append(style.bold(title).as_str());
    out.append("\n");
    out.append("  ");
    out.append(style.dim(subtitle).as_str());
    out.append("\n\n");
    out.append(rows);
    out.append("\n  ");
    out.append(style.dim(hint).as_str());
    out.append("\n");
    out
}

/// The screen of the menu.
pub open spec fn menu_screen(selected: int, on: bool) -> Seq<char> {
    screen(
        "dustpan"@,
        "Clean and inspect your Windows PC"@,
        item_rows(selected, on, 5),
        "↑↓/j/k move  •  Enter select  •  1-5 quick select  •  q quit"@,
        on,
    )
}

fn no_rows() -> (r: String)
    ensures
        r@ == Seq::<char>::empty(),
{
    let r = String::new();
    assert(r@ =~= Seq::<char>::empty());
    r
}

/// The screen of the menu.
pub fn draw(selected: usize, style: &Style) -> (r: String)
    ensures
        r@ == menu_screen(selected as int, style.on),
{
    let items = ITEMS;
    let mut rows = no_rows();
    for i in 0..5
        invariant
            items == ITEMS,
            rows@ == item_rows(selected as int, style.on, i as int),
    {
        let mut row = "  ".to_string();
        row.append(decimal_of((i + 1) as u64).as_str());
        row.append("  ");
        row.append(align_left(items[i].1, 14).as_str());
        row.append(" ");
        row.append(items[i].2);
        row.append("  ");
        assert(row@ == item_row(i as int));
        rows.append(render_marked(row.as_str(), i == selected, "  ", style).as_str());
    }
    render_screen(
        "dustpan",
        "Clean and inspect your Windows PC",
        rows.as_str(),
        "↑↓/j/k move  •  Enter select  •  1-5 quick select  •  q quit",
        style,
    )
}

/// What is said where there is no terminal to show the menu on.
pub fn no_terminal() -> (r: &'static str)
    ensures
        r@
            == "dpan needs an interactive terminal when run without a command.\nRun `dpan --help` for usage or `dpan clean` to clean."@,
{
    "dpan needs an interactive terminal when run without a command.\nRun `dpan --help` for usage or `dpan clean` to clean."
}

// ---------------------------------------------------------------------------
// Settings
// ---------------------------------------------------------------------------

pub const SETTINGS_ITEMS: [&'static str; 8] = [
    "Temporary files",
    "System caches",
    "Browser caches",
    "Developer caches",
    "Application caches",
    "Recycle Bin",
    "Confirm before deleting",
    "Color output",
];

/// The settings screen: a box to tick for every category, then three more.
pub struct SettingsForm {
    pub ticked: Vec<bool>,
    pub cursor: usize,
    /// Shown once, below the list.
    pub message: String,
}

/// The settings screen as mathematical data.
pub struct FormRow {
    pub ticked: Seq<bool>,
    pub cursor: int,
    pub message: Seq<char>,
}

impl View for SettingsForm {
    type V = FormRow;

    open spec fn view(&self) -> FormRow {
        FormRow { ticked: self.ticked@, cursor: self.cursor as int, message: self.message@ }
    }
}

/// There is a box for every item, and the cursor is on one.
pub open spec fn form_ok(f: FormRow) -> bool {
    f.ticked.len() == 8 && 0 <= f.cursor < 8
}

/// The screen that shows settings.
pub open spec fn form_of(s: SettingsRow) -> FormRow {
    FormRow {
        ticked: seq![
            s.categories.contains(Category::Temp),
            s.categories.contains(Category::System),
            s.categories.contains(Category::Browser),
            s.categories.contains(Category::Dev),
            s.categories.contains(Category::Apps),
            s.recycle_bin,
            s.confirm_clean,
            s.color,
        ],
        cursor: 0,
        message: seq![],
    }
}

/// The first `n` categories that are ticked, in display order.
pub open spec fn ticked_categories(ticked: Seq<bool>, n: int) -> Seq<Category>
    decreases n,
{
    if n <= 0 {
        seq![]
    } else {
        let front = ticked_categories(ticked, n - 1);
        if ticked[n - 1] {
            front.push(all_categories()[n - 1])
        } else {
            front
        }
    }
}

/// The settings that a screen stands for.
pub open spec fn settings_of(ticked: Seq<bool>) -> SettingsRow {
    SettingsRow {
        categories: ticked_categories(ticked, 5),
        recycle_bin: ticked[5],
        confirm_clean: ticked[6],
        color: ticked[7],
    }
}

/// What a key press on the settings screen comes to.
pub enum FormStep {
    Stay,
    Save(Settings),
    Cancel,
}

/// What a key press comes to, as mathematical data.
pub enum FormStepRow {
    Stay,
    Save(SettingsRow),
    Cancel,
}

impl View for FormStep {
    type V = FormStepRow;

    open spec fn view(&self) -> FormStepRow {
        match self {
            FormStep::Stay => FormStepRow::Stay,
            FormStep::Save(s) => FormStepRow::Save(s@),
            FormStep::Cancel => FormStepRow::Cancel,
        }
    }
}

/// The boxes with one turned over.
pub open spec fn turned_over(ticked: Seq<bool>, i: int) -> Seq<bool> {
    ticked.update(i, !ticked[i])
}

/// The screen after a key press, and what it comes to. Settings that would clean nothing at all are
/// not saved.
pub open spec fn form_step(f: FormRow, key: Key) -> (FormRow, FormStepRow) {
    let q = FormRow { message: seq![], ..f };
    match key {
        Key::Up => (FormRow { cursor: previous_place(f.cursor), ..q }, FormStepRow::Stay),
        Key::Down => (FormRow { cursor: next_place(f.cursor, 8), ..q }, FormStepRow::Stay),
        Key::Top => (FormRow { cursor: 0, ..q }, FormStepRow::Stay),
        Key::Bottom => (FormRow { cursor: 7, ..q }, FormStepRow::Stay),
        Key::Space => (
            FormRow { ticked: turned_over(f.ticked, f.cursor), ..q },
            FormStepRow::Stay,
        ),
        Key::Number(n) => if 1 <= n <= 8 {
            (
                FormRow { cursor: n - 1, ticked: turned_over(f.ticked, n - 1), ..q },
                FormStepRow::Stay,
            )
        } else {
            (q, FormStepRow::Stay)
        },
        Key::Enter | Key::Right => if settings_of(f.ticked).categories.len() == 0 && !f.ticked[5] {
            (
                FormRow { message: "Keep at least one cleaning area enabled"@, ..q },
                FormStepRow::Stay,
            )
        } else {
            (q, FormStepRow::Save(settings_of(f.ticked)))
        },
        Key::Quit | Key::Left => (q, FormStepRow::Cancel),
        Key::PageUp | Key::PageDown | Key::Other => (q, FormStepRow::Stay),
    }
}

impl SettingsForm {
    /// The screen that shows settings.
    pub fn new(settings: &Settings) -> (r: SettingsForm)
        ensures
            r@ == form_of(settings@),
            form_ok(r@),
    {
        let c = &settings.categories;
        let ticked: Vec<bool> = vec![
            has_category(c, Category::Temp),
            has_category(c, Category::System),
            has_category(c, Category::Browser),
            has_category(c, Category::Dev),
            has_category(c, Category::Apps),
            settings.recycle_bin,
            settings.confirm_clean,
            settings.color,
        ];
        assert(ticked@ =~= form_of(settings@).ticked);
        SettingsForm { ticked, cursor: 0, message: no_rows() }
    }

    fn turn_over(&mut self, i: usize)
        requires
            form_ok(old(self)@),
            i < 8,
        ensures
            final(self)@ == (FormRow { ticked: turned_over(old(self)@.ticked, i as int), ..old(
                self,
            )@ }),
    {
        let was = self.ticked[i];
        self.ticked.set(i, !was);
    }

    fn chosen(&self) -> (r: Settings)
        requires
            form_ok(self@),
        ensures
            r@ == settings_of(self@.ticked),
    {
        let all = Category::ALL;
        assert(all@ =~= all_categories());
        let mut categories: Vec<Category> = Vec::new();
        for i in 0..5
            invariant
                form_ok(self@),
                all@ == all_categories(),
                categories@ == ticked_categories(self@.ticked, i as int),
        {
            if self.ticked[i] {
                categories.push(all[i]);
            }
        }
        Settings {
            categories,
            recycle_bin: self.ticked[5],
            confirm_clean: self.ticked[6],
            color: self.ticked[7],
        }
    }

    /// Takes in a key press.
    pub fn press(&mut self, key: Key) -> (r: FormStep)
        requires
            form_ok(old(self)@),
        ensures
            (final(self)@, r@) == form_step(old(self)@, key),
            form_ok(final(self)@),
    {
        self.message = no_rows();
        match key {
            Key::Up => {
                if self.cursor > 0 {
                    self.cursor = self.cursor - 1;
                }
            },
            Key::Down => {
                if self.cursor + 1 < 8 {
                    self.cursor = self.cursor + 1;
                } else {
                    self.cursor = 7;
                }
            },
            Key::Top => {
                self.cursor = 0;
            },
            Key::Bottom => {
                self.cursor = 7;
            },
            Key::Space => {
                let at = self.cursor;
                self.turn_over(at);
            },
            Key::Number(n) => {
                if 1 <= n && n <= 8 {
                    self.cursor = n as usize - 1;
                    let at = self.cursor;
                    self.turn_over(at);
                }
            },
            Key::Enter | Key::Right => {
                let s = self.chosen();
                if s.categories.len() == 0 && !self.ticked[5] {
                    self.message = "Keep at least one cleaning area enabled".to_string();
                } else {
                    return FormStep::Save(s);
                }
            },
            Key::Quit | Key::Left => {
                return FormStep::Cancel;
            },
            Key::PageUp | Key::PageDown | Key::Other => {},
        }
        FormStep::Stay
    }
}

/// The row of a box.
pub open spec fn box_row(i: int, ticked: bool) -> Seq<char> {
    "  "@ + decimal((i + 1) as nat) + "  "@ + (if ticked {
        "[x]"@
    } else {
        "[ ]"@
    }) + "  "@ + SETTINGS_ITEMS@[i]@ + "  "@
}

pub open spec fn box_rows(ticked: Seq<bool>, cursor: int, on: bool, count: int) -> Seq<char>
    decreases count,
{
    if count <= 0 {
        seq![]
    } else {
        box_rows(ticked, cursor, on, count - 1) + marked_row(
            box_row(count - 1, ticked[count - 1]),
            count - 1 == cursor,
            seq![],
            on,
        )
    }
}

/// The settings screen.
pub open spec fn form_screen(f: FormRow, on: bool) -> Seq<char> {
    screen(
        "Settings"@,
        "Defaults used by the argument-free workflow"@,
        box_rows(f.ticked, f.cursor, on, 8),
        "↑↓/j/k move  •  Space toggle  •  Enter save  •  q cancel"@,
        on,
    ) + (if f.message.len() == 0 {
        seq![]
    } else {
        "\n  "@ + painted(on, "33"@, f.message) + "\n"@
    })
}

/// The settings screen.
pub fn draw_settings(form: &SettingsForm, style: &Style) -> (r: String)
    requires
        form_ok(form@),
    ensures
        r@ == form_screen(form@, style.on),
{
    let titles = SETTINGS_ITEMS;
    let mut rows = no_rows();
    let empty = no_rows();
    for i in 0..8
        invariant
            titles == SETTINGS_ITEMS,
            form_ok(form@),
            empty@ == Seq::<char>::empty(),
            rows@ == box_rows(form@.ticked, form@.cursor, style.on, i as int),
    {
        let mut row = "  ".to_string();
        row.append(decimal_of((i + 1) as u64).as_str());
        row.append("  ");
        row.append(
            if form.ticked[i] {
                "[x]"
            } else {
                "[ ]"
            },
        );
        row.append("  ");
        row.append(titles[i]);
        row.append("  ");
        assert(row@ == box_row(i as int, form@.ticked[i as int]));
        rows.append(render_marked(row.as_str(), i == form.cursor, empty.as_str(), style).as_str());
    }
    let mut out = render_screen(
        "Settings",
        "Defaults used by the argument-free workflow",
        rows.as_str(),
        "↑↓/j/k move  •  Space toggle  •  Enter save  •  q cancel",
        style,
    );
    let more = if chars_of(form.message.as_str()).len() == 0 {
        no_rows()
    } else {
        let mut s = "\n  ".to_string();
        s.append(style.yellow(form.message.as_str()).as_str());
        s.append("\n");
        s
    };
    out.append(more.as_str());
    out
}

// ---------------------------------------------------------------------------
// Where to explore
// ---------------------------------------------------------------------------

/// A directory that may be offered.
pub struct Candidate {
    pub label: String,
    pub path: PathParts,
    pub is_drive: bool,
}

/// A directory that may be offered, as mathematical data.
pub struct CandidateRow {
    pub label: Seq<char>,
    pub path: PathRow,
    pub is_drive: bool,
}

impl View for Candidate {
    type V = CandidateRow;

    open spec fn view(&self) -> CandidateRow {
        CandidateRow { label: self.label@, path: self.path@, is_drive: self.is_drive }
    }
}

pub open spec fn candidate_rows(v: Seq<Candidate>) -> Seq<CandidateRow> {
    v.map_values(|c: Candidate| c@)
}

/// A row of the choice; one without a path lets the user type it.
pub struct Place {
    pub label: String,
    pub path: Option<String>,
}

/// A row of the choice as mathematical data.
pub struct PlaceRow {
    pub label: Seq<char>,
    pub path: Option<Seq<char>>,
}

impl View for Place {
    type V = PlaceRow;

    open spec fn view(&self) -> PlaceRow {
        PlaceRow { label: self.label@, path: text_opt(self.path) }
    }
}

pub open spec fn place_rows(v: Seq<Place>) -> Seq<PlaceRow> {
    v.map_values(|p: Place| p@)
}

/// The drive with the given number.
pub open spec fn drive_text(k: int) -> Seq<char> {
    seq![(65 + k) as u8 as char] + ":\\"@
}

/// The label of that drive.
pub open spec fn drive_label(k: int) -> Seq<char> {
    "Drive "@ + seq![(65 + k) as u8 as char] + ":"@
}

/// The folders of a user that are offered.
pub open spec fn folder_names() -> Seq<Seq<char>> {
    seq!["Desktop"@, "Downloads"@, "Documents"@, "Pictures"@]
}

/// The candidate is the home directory.
pub open spec fn is_home(c: CandidateRow, home: Seq<char>) -> bool {
    c.label == "Home"@ && !c.is_drive && reads_as(home, c.path)
}

/// The candidate is a folder of the home directory.
pub open spec fn is_folder(c: CandidateRow, home: Seq<char>, name: Seq<char>) -> bool {
    c.label == name && !c.is_drive && crate::paths::well_read(c.path) && is_path_of(
        c.path.text,
        seq![home, name],
    )
}

/// The candidate is a drive.
pub open spec fn is_drive_candidate(c: CandidateRow, k: int) -> bool {
    c.label == drive_label(k) && c.is_drive && reads_as(drive_text(k), c.path)
}

/// The candidates: the home directory and its folders, if there is one, and on Windows every drive.
pub open spec fn are_candidates(s: Seq<CandidateRow>, home: Option<Seq<char>>, windows: bool) -> bool {
    let own = if home is Some {
        5int
    } else {
        0
    };
    &&& s.len() == own + (if windows {
        26int
    } else {
        0
    })
    &&& home is Some ==> is_home(s[0], home->Some_0)
    &&& home is Some ==> forall|k: int|
        0 <= k < 4 ==> is_folder(s[1 + k], home->Some_0, #[trigger] folder_names()[k])
    &&& forall|k: int|
        #![trigger drive_label(k)]
        windows && 0 <= k < 26 ==> is_drive_candidate(s[own + k], k)
}

/// The directories that may be offered: it remains to be seen which of them exist.
pub fn analyze_candidates(home: Option<&str>, windows: bool) -> (r: Vec<Candidate>)
    ensures
        are_candidates(
            candidate_rows(r@),
            match home {
                Some(h) => Some(h@),
                None => None,
            },
            windows,
        ),
{
    let mut out: Vec<Candidate> = Vec::new();
    if let Some(h) = home {
        let path = PathParts::parse(h);
        out.push(Candidate { label: "Home".to_string(), path, is_drive: false });
        let names: [&str; 4] = ["Desktop", "Downloads", "Documents", "Pictures"];
        assert(str_texts(names@) =~= folder_names());
        for i in 0..4
            invariant
                str_texts(names@) == folder_names(),
                out@.len() == 1 + i,
                is_home(out@[0]@, h@),
                forall|k: int|
                    0 <= k < i ==> is_folder(out@[1 + k]@, h@, #[trigger] folder_names()[k]),
        {
            let one: [&str; 1] = [names[i]];
            let text = path_below(h, one.as_slice());
            assert(str_texts(names@)[i as int] == names@[i as int]@);
            assert(seq![h@] + str_texts(one@) =~= seq![h@, folder_names()[i as int]]);
            let path = PathParts::parse(text.as_str());
            out.push(Candidate { label: names[i].to_string(), path, is_drive: false });
        }
    }
    let own = out.len();
    let ghost front = out@;
    if windows {
        for k in 0..26u8
            invariant
                own == front.len(),
                own <= 5,
                out@.len() == own + k,
                out@.take(own as int) == front,
                forall|j: int|
                    #![trigger drive_label(j)]
                    0 <= j < k ==> is_drive_candidate(out@[own + j]@, j),
        {
            let ghost before = out@;
            let letter = (65 + k) as char;
            let mut text = String::new();
            text.push(letter);
            text.append(":\\");
            assert(text@ =~= drive_text(k as int));
            let mut label = "Drive ".to_string();
            label.push(letter);
            label.append(":");
            assert(label@ =~= drive_label(k as int));
            let path = PathParts::parse(text.as_str());
            out.push(Candidate { label, path, is_drive: true });
            assert(out@.take(own as int) =~= front);
            assert forall|j: int|
                #![trigger drive_label(j)]
                0 <= j < k + 1 implies is_drive_candidate(out@[own + j]@, j) by {
                if j < k {
                    assert(out@[own + j] == before[own + j]);
                }
            }
        }
    }
    proof {
        let rows = candidate_rows(out@);
        assert(out@.take(own as int) =~= front);
        assert forall|i: int| 0 <= i < own implies rows[i] == front[i]@ by {
            assert(out@.take(own as int)[i] == out@[i]);
        }
    }
    out
}

/// The path of one of the list is the same.
pub open spec fn is_offered(list: Seq<CandidateRow>, p: PathRow) -> bool {
    exists|i: int| 0 <= i < list.len() && same_path((#[trigger] list[i]).path, p)
}

/// The candidates that are offered: those that exist, but the home directory in any case, and a drive
/// only where nothing before it is the same place.
pub open spec fn offered(s: Seq<CandidateRow>, there: Seq<bool>, n: int) -> Seq<CandidateRow>
    decreases n,
{
    if n <= 0 {
        seq![]
    } else {
        let front = offered(s, there, n - 1);
        let c = s[n - 1];
        let shown = if c.is_drive {
            there[n - 1] && !is_offered(front, c.path)
        } else {
            c.label == "Home"@ || there[n - 1]
        };
        if shown {
            front.push(c)
        } else {
            front
        }
    }
}

/// The choice: the directories that are offered, and a row to type another.
pub open spec fn places_of(list: Seq<CandidateRow>) -> Seq<PlaceRow> {
    list.map_values(
        |c: CandidateRow| PlaceRow { label: c.label, path: Some(c.path.text) },
    ).push(PlaceRow { label: "Custom path..."@, path: None })
}

fn already_offered(kept: &Vec<usize>, candidates: &Vec<Candidate>, p: &PathParts) -> (r: bool)
    requires
        forall|i: int| 0 <= i < kept@.len() ==> #[trigger] kept@[i] < candidates@.len(),
    ensures
        r == is_offered(picked_candidates(candidate_rows(candidates@), kept@), p@),
{
    let ghost list = picked_candidates(candidate_rows(candidates@), kept@);
    for i in 0..kept.len()
        invariant
            list == picked_candidates(candidate_rows(candidates@), kept@),
            forall|k: int| 0 <= k < kept@.len() ==> #[trigger] kept@[k] < candidates@.len(),
            forall|k: int| 0 <= k < i ==> !same_path((#[trigger] list[k]).path, p@),
    {
        assert(list[i as int] == candidates@[kept@[i as int] as int]@);
        if is_same_path(&candidates[kept[i]].path, p) {
            return true;
        }
    }
    false
}

/// The candidates at some places.
pub open spec fn picked_candidates(s: Seq<CandidateRow>, places: Seq<usize>) -> Seq<CandidateRow> {
    places.map_values(|i: usize| s[i as int])
}

/// The choice of directories, given which of the candidates exist.
pub fn analyze_items(candidates: &Vec<Candidate>, there: &Vec<bool>) -> (r: Vec<Place>)
    requires
        there@.len() == candidates@.len(),
    ensures
        place_rows(r@) == places_of(
            offered(candidate_rows(candidates@), there@, candidates@.len() as int),
        ),
{
    let ghost all = candidate_rows(candidates@);
    let mut kept: Vec<usize> = Vec::new();
    assert(picked_candidates(all, kept@) =~= Seq::<CandidateRow>::empty());
    for i in 0..candidates.len()
        invariant
            all == candidate_rows(candidates@),
            there@.len() == candidates@.len(),
            forall|k: int| 0 <= k < kept@.len() ==> #[trigger] kept@[k] < candidates@.len(),
            picked_candidates(all, kept@) == offered(all, there@, i as int),
    {
        let c = &candidates[i];
        assert(all[i as int] == c@);
        let shown = if c.is_drive {
            there[i] && !already_offered(&kept, candidates, &c.path)
        } else {
            crate::text::str_eq(c.label.as_str(), "Home") || there[i]
        };
        if shown {
            let ghost before = kept@;
            kept.push(i);
            assert(picked_candidates(all, kept@) =~= picked_candidates(all, before).push(
                all[i as int],
            ));
        }
    }
    let ghost list = picked_candidates(all, kept@);
    let ghost rows = places_of(list);
    let mut out: Vec<Place> = Vec::new();
    for i in 0..kept.len()
        invariant
            all == candidate_rows(candidates@),
            list == picked_candidates(all, kept@),
            rows == places_of(list),
            forall|k: int| 0 <= k < kept@.len() ==> #[trigger] kept@[k] < candidates@.len(),
            place_rows(out@) == rows.take(i as int),
    {
        let c = &candidates[kept[i]];
        assert(list[i as int] == c@);
        let p = Place { label: c.label.clone(), path: Some(c.path.text.clone()) };
        let ghost before = out@;
        out.push(p);
        assert(place_rows(out@) =~= place_rows(before).push(p@));
        assert(p@ == rows[i as int]);
        assert(place_rows(out@) =~= rows.take(i + 1));
    }
    let last = Place { label: "Custom path...".to_string(), path: None };
    let ghost before = out@;
    out.push(last);
    assert(place_rows(out@) =~= place_rows(before).push(last@));
    assert(place_rows(out@) =~= rows);
    out
}

/// What a key press in the choice comes to.
#[derive(Clone, Copy, PartialEq, Eq, Debug, Structural)]
pub enum PlaceStep {
    /// The row at this place is now marked.
    At(usize),
    /// The row at this place was chosen.
    Chosen(usize),
    /// The user leaves.
    Leave,
}

/// What a key press in the choice comes to.
pub open spec fn place_step(cursor: usize, count: int, key: Key) -> PlaceStep {
    match key {
        Key::Up => PlaceStep::At(previous_place(cursor as int) as usize),
        Key::Down => PlaceStep::At(next_place(cursor as int, count) as usize),
        Key::Top => PlaceStep::At(0),
        Key::Bottom => PlaceStep::At((count - 1) as usize),
        Key::Number(n) => if 1 <= n <= count {
            PlaceStep::Chosen((n - 1) as usize)
        } else {
            PlaceStep::At(cursor)
        },
        Key::Enter | Key::Right => PlaceStep::Chosen(cursor),
        Key::Quit | Key::Left => PlaceStep::Leave,
        Key::Space | Key::PageUp | Key::PageDown | Key::Other => PlaceStep::At(cursor),
    }
}

/// Takes in a key press in the choice of a directory.
pub fn choose_place(cursor: usize, count: usize, key: Key) -> (r: PlaceStep)
    requires
        cursor < count,
    ensures
        r == place_step(cursor, count as int, key),
{
    match key {
        Key::Up => PlaceStep::At(
            if cursor > 0 {
                cursor - 1
            } else {
                0
            },
        ),
        Key::Down => PlaceStep::At(
            if cursor + 1 < count {
                cursor + 1
            } else {
                count - 1
            },
        ),
        Key::Top => PlaceStep::At(0),
        Key::Bottom => PlaceStep::At(count - 1),
        Key::Number(n) => if 1 <= n && n as usize <= count {
            PlaceStep::Chosen(n as usize - 1)
        } else {
            PlaceStep::At(cursor)
        },
        Key::Enter | Key::Right => PlaceStep::Chosen(cursor),
        Key::Quit | Key::Left => PlaceStep::Leave,
        Key::Space | Key::PageUp | Key::PageDown | Key::Other => PlaceStep::At(cursor),
    }
}

/// The row of a directory in the choice.
pub open spec fn place_row(i: int, p: PlaceRow) -> Seq<char> {
    "  "@ + decimal((i + 1) as nat) + "  "@ + left_aligned(p.label, 16) + " "@ + (match p.path {
        Some(t) => t,
        None => seq![],
    }) + "  "@
}

pub open spec fn place_list(items: Seq<PlaceRow>, cursor: int, on: bool) -> Seq<char>
    decreases items.len(),
{
    if items.len() == 0 {
        seq![]
    } else {
        place_list(items.drop_last(), cursor, on) + marked_row(
            place_row(items.len() - 1, items.last()),
            items.len() - 1 == cursor,
            seq![],
            on,
        )
    }
}

/// The screen of the choice.
pub open spec fn places_screen(items: Seq<PlaceRow>, cursor: int, on: bool) -> Seq<char> {
    screen(
        "Analyze disk usage"@,
        "Choose a directory to explore"@,
        place_list(items, cursor, on),
        "↑↓/j/k move  •  Enter open  •  q cancel"@,
        on,
    )
}

/// The screen of the choice of a directory.
pub fn draw_places(items: &Vec<Place>, cursor: usize, style: &Style) -> (r: String)
    ensures
        r@ == places_screen(place_rows(items@), cursor as int, style.on),
{
    let ghost all = place_rows(items@);
    let mut rows = no_rows();
    let empty = no_rows();
    assert(all.take(0) =~= Seq::<PlaceRow>::empty());
    for i in 0..items.len()
        invariant
            all == place_rows(items@),
            empty@ == Seq::<char>::empty(),
            rows@ == place_list(all.take(i as int), cursor as int, style.on),
    {
        assert(all.take(i + 1).drop_last() =~= all.take(i as int));
        assert(all.take(i + 1).last() == items@[i as int]@);
        let mut row = "  ".to_string();
        row.append(decimal_of(i as u64 + 1).as_str());
        row.append("  ");
        row.append(align_left(items[i].label.as_str(), 16).as_str());
        row.append(" ");
        let display = match &items[i].path {
            Some(t) => t.clone(),
            None => no_rows(),
        };
        row.append(display.as_str());
        row.append("  ");
        assert(row@ == place_row(i as int, items@[i as int]@));
        rows.append(render_marked(row.as_str(), i == cursor, empty.as_str(), style).as_str());
    }
    assert(all.take(all.len() as int) =~= all);
    render_screen(
        "Analyze disk usage",
        "Choose a directory to explore",
        rows.as_str(),
        "↑↓/j/k move  •  Enter open  •  q cancel",
        style,
    )
}

/// The text without the characters `c` at its front.
pub open spec fn without_front(s: Seq<char>, c: char) -> Seq<char>
    decreases s.len(),
{
    if s.len() > 0 && s[0] == c {
        without_front(s.drop_first(), c)
    } else {
        s
    }
}

/// The path that a line stands for: without blanks and quotes around it. An empty line stands for
/// none.
pub open spec fn typed_in(line: Seq<char>) -> Option<Seq<char>> {
    let v = without_end(without_front(trimmed(line), '"'), '"');
    if v.len() == 0 {
        None
    } else {
        Some(v)
    }
}

/// The path that the user typed; none where the line is blank.
pub fn typed_path(line: &str) -> (r: Option<String>)
    ensures
        text_opt(r) == typed_in(line@),
{
    let t = trim_str(line);
    let mut i: usize = 0;
    assert(t@.skip(0) =~= t@);
    while i < t.len() && t[i] == '"'
        invariant
            i <= t@.len(),
            without_front(t@, '"') == without_front(t@.skip(i as int), '"'),
        decreases t@.len() - i,
    {
        assert(t@.skip(i as int).drop_first() =~= t@.skip(i + 1));
        i = i + 1;
    }
    let rest = vstd::slice::slice_subrange(t.as_slice(), i, t.len());
    assert(rest@ =~= t@.skip(i as int));
    let v = trim_end_char(rest, '"');
    if v.len() == 0 {
        None
    } else {
        Some(string_of(v))
    }
}

/// A directory to look into.
pub struct AnalyzeSelection {
    pub path: String,
}

/// What a typed line comes to.
pub enum Typed {
    /// The user wants no directory.
    Cancel,
    /// The directory was chosen.
    Chosen(AnalyzeSelection),
    /// There is no such directory; this is said, and the user is asked again.
    Again(String),
}

/// Takes in a line that names a directory. `is_dir` tells whether a path is one.
pub fn take_typed<F: Fn(&str) -> bool>(line: &str, is_dir: &F) -> (r: Typed)
    requires
        forall|p: &str| #[trigger] call_requires(*is_dir, (p,)),
    ensures
        match typed_in(line@) {
            None => r is Cancel,
            Some(path) => match r {
                Typed::Cancel => false,
                Typed::Chosen(s) => s.path@ == path && exists|p: &str|
                    p@ == path && #[trigger] call_ensures(*is_dir, (p,), true),
                Typed::Again(text) => {
                    &&& text@ == "Not a readable directory: "@ + path + "\n"@
                    &&& exists|p: &str|
                        p@ == path && #[trigger] call_ensures(*is_dir, (p,), false)
                },
            },
        },
{
    let path = match typed_path(line) {
        Some(path) => path,
        None => {
            return Typed::Cancel;
        },
    };
    let p = path.as_str();
    if is_dir(p) {
        assert(call_ensures(*is_dir, (p,), true));
        return Typed::Chosen(AnalyzeSelection { path });
    }
    assert(call_ensures(*is_dir, (p,), false));
    let mut text = "Not a readable directory: ".to_string();
    text.append(path.as_str());
    text.append("\n");
    Typed::Again(text)
}

// ---------------------------------------------------------------------------
// Laws
// ---------------------------------------------------------------------------

/// The menu lists its actions in the order of the numbers that choose them.
pub proof fn numbers_choose_in_display_order()
    ensures
        menu_step(0, Key::Number(1)) == MenuStep::Chosen(Action::Clean),
        menu_step(0, Key::Number(2)) == MenuStep::Chosen(Action::Apps),
        menu_step(0, Key::Number(3)) == MenuStep::Chosen(Action::Analyze),
        menu_step(0, Key::Number(4)) == MenuStep::Chosen(Action::Ctxmenu),
        menu_step(0, Key::Number(5)) == MenuStep::Chosen(Action::Settings),
{
}

/// However keys are pressed in the menu, an item of it stays marked.
pub proof fn menu_mark_stays_in_the_list(selected: usize, key: Key)
    requires
        selected < 5,
    ensures
        menu_step(selected, key) matches MenuStep::At(i) ==> i < 5,
{
}

proof fn lemma_ticked(ticked: Seq<bool>, n: int)
    requires
        0 <= n <= 5,
        ticked.len() == 8,
    ensures
        ticked_categories(ticked, n).no_duplicates(),
        forall|i: int|
            0 <= i < 5 ==> (ticked_categories(ticked, n).contains(#[trigger] all_categories()[i])
                <==> i < n && ticked[i]),
    decreases n,
{
    let list = ticked_categories(ticked, n);
    if n > 0 {
        lemma_ticked(ticked, n - 1);
        let front = ticked_categories(ticked, n - 1);
        let c = all_categories()[n - 1];
        assert(!front.contains(c));
        if ticked[n - 1] {
            assert(list == front.push(c));
            assert forall|i: int, j: int|
                0 <= i < list.len() && 0 <= j < list.len() && i != j implies list[i] != list[j] by {
                if i == front.len() {
                    assert(front.contains(front[j]));
                } else if j == front.len() {
                    assert(front.contains(front[i]));
                }
            }
            assert forall|i: int| 0 <= i < 5 implies (list.contains(#[trigger] all_categories()[i])
                <==> i < n && ticked[i]) by {
                let x = all_categories()[i];
                assert(list[list.len() - 1] == c);
                if front.contains(x) {
                    let k = choose|k: int| 0 <= k < front.len() && front[k] == x;
                    assert(list[k] == x);
                }
                if list.contains(x) {
                    let k = choose|k: int| 0 <= k < list.len() && list[k] == x;
                    if k < front.len() {
                        assert(front[k] == x);
                    }
                }
            }
        }
    }
}

/// What the settings screen saves cleans something, and no category is in it twice.
pub proof fn saved_settings_clean_something(f: FormRow, key: Key)
    requires
        form_ok(f),
    ensures
        form_step(f, key).1 matches FormStepRow::Save(s) ==> (s.categories.len() > 0
            || s.recycle_bin) && s.categories.no_duplicates(),
{
    lemma_ticked(f.ticked, 5);
}

/// Opening the settings screen and saving at once changes nothing: the same categories are cleaned,
/// and the other settings are the same.
pub proof fn saving_at_once_changes_nothing(s: SettingsRow)
    requires
        s.categories.len() > 0 || s.recycle_bin,
    ensures
        ({
            let t = settings_of(form_of(s).ticked);
            &&& forall|c: Category| t.categories.contains(c) <==> s.categories.contains(c)
            &&& t.recycle_bin == s.recycle_bin
            &&& t.confirm_clean == s.confirm_clean
            &&& t.color == s.color
        }),
{
    let ticked = form_of(s).ticked;
    lemma_ticked(ticked, 5);
    let t = settings_of(ticked);
    assert forall|c: Category| t.categories.contains(c) <==> s.categories.contains(c) by {
        let all = all_categories();
        assert(all[0] == Category::Temp && all[1] == Category::System && all[2] == Category::Browser
            && all[3] == Category::Dev && all[4] == Category::Apps);
        match c {
            Category::Temp => {
                assert(t.categories.contains(all[0]) <==> ticked[0]);
            },
            Category::System => {
                assert(t.categories.contains(all[1]) <==> ticked[1]);
            },
            Category::Browser => {
                assert(t.categories.contains(all[2]) <==> ticked[2]);
            },
            Category::Dev => {
                assert(t.categories.contains(all[3]) <==> ticked[3]);
            },
            Category::Apps => {
                assert(t.categories.contains(all[4]) <==> ticked[4]);
            },
        }
    }
}

/// Turning a box over twice leaves it as it was.
pub proof fn turning_over_twice_changes_nothing(ticked: Seq<bool>, i: int)
    requires
        0 <= i < ticked.len(),
    ensures
        turned_over(turned_over(ticked, i), i) == ticked,
{
    assert(turned_over(turned_over(ticked, i), i) =~= ticked);
}

/// A number chooses what moving to its row and pressing Enter chooses, and every action can be chosen.
pub proof fn every_action_can_be_chosen(at: usize, n: u8, a: Action)
    requires
        at < 5,
        1 <= n <= 5,
    ensures
        menu_step(at, Key::Number(n)) == menu_step((n - 1) as usize, Key::Enter),
        menu_step(at, Key::Right) == menu_step(at, Key::Enter),
        exists|k: usize| k < 5 && #[trigger] menu_step(k, Key::Enter) == MenuStep::Chosen(a),
        menu_step(at, Key::Quit) == MenuStep::Leave,
        at < 4 ==> menu_step(at, Key::Down) == MenuStep::At((at + 1) as usize),
        at > 0 ==> menu_step(at, Key::Up) == MenuStep::At((at - 1) as usize),
{
    assert(menu_step(0, Key::Enter) == MenuStep::Chosen(Action::Clean));
    assert(menu_step(1, Key::Enter) == MenuStep::Chosen(Action::Apps));
    assert(menu_step(2, Key::Enter) == MenuStep::Chosen(Action::Analyze));
    assert(menu_step(3, Key::Enter) == MenuStep::Chosen(Action::Ctxmenu));
    assert(menu_step(4, Key::Enter) == MenuStep::Chosen(Action::Settings));
}

/// A box stands for what it says: what is saved has exactly the categories that are ticked, and the three
/// switches below them.
pub proof fn boxes_stand_for_what_they_say(ticked: Seq<bool>)
    requires
        ticked.len() == 8,
    ensures
        settings_of(ticked).categories.contains(Category::Temp) == ticked[0],
        settings_of(ticked).categories.contains(Category::System) == ticked[1],
        settings_of(ticked).categories.contains(Category::Browser) == ticked[2],
        settings_of(ticked).categories.contains(Category::Dev) == ticked[3],
        settings_of(ticked).categories.contains(Category::Apps) == ticked[4],
        settings_of(ticked).recycle_bin == ticked[5],
        settings_of(ticked).confirm_clean == ticked[6],
        settings_of(ticked).color == ticked[7],
{
    lemma_ticked_holds(ticked, 5, Category::Temp, 0);
    lemma_ticked_holds(ticked, 5, Category::System, 1);
    lemma_ticked_holds(ticked, 5, Category::Browser, 2);
    lemma_ticked_holds(ticked, 5, Category::Dev, 3);
    lemma_ticked_holds(ticked, 5, Category::Apps, 4);
}

proof fn lemma_ticked_holds(ticked: Seq<bool>, n: int, c: Category, k: int)
    requires
        0 <= n <= 5,
        0 <= k < 5,
        all_categories()[k] == c,
    ensures
        ticked_categories(ticked, n).contains(c) == (k < n && ticked[k]),
    decreases n,
{
    let all = all_categories();
    assert(all[0] == Category::Temp && all[1] == Category::System && all[2] == Category::Browser
        && all[3] == Category::Dev && all[4] == Category::Apps);
    if n > 0 {
        lemma_ticked_holds(ticked, n - 1, c, k);
        let front = ticked_categories(ticked, n - 1);
        let now = ticked_categories(ticked, n);
        if front.contains(c) {
            let i = choose|i: int| 0 <= i < front.len() && front[i] == c;
            assert(now[i] == c);
        }
        if now.contains(c) {
            let i = choose|i: int| 0 <= i < now.len() && now[i] == c;
            if i < front.len() {
                assert(front[i] == c);
            } else {
                assert(all[n - 1] == c);
            }
        }
        if ticked[n - 1] && n - 1 == k {
            assert(now[front.len() as int] == c);
        }
    }
}

/// What exists is offered: the home directory in any case, its folders where they are there, and a drive
/// that is there, unless what is offered already is the same place.
pub proof fn what_exists_is_offered(s: Seq<CandidateRow>, there: Seq<bool>, n: int, k: int)
    requires
        0 <= k < n <= s.len(),
        there.len() == s.len(),
    ensures
        !s[k].is_drive && (there[k] || s[k].label == "Home"@) ==> offered(s, there, n).contains(s[k]),
        s[k].is_drive && there[k] ==> exists|i: int|
            0 <= i < offered(s, there, n).len() && same_path(
                (#[trigger] offered(s, there, n)[i]).path,
                s[k].path,
            ),
        !there[k] && s[k].label != "Home"@ ==> offered(s, there, k + 1) == offered(s, there, k),
    decreases n,
{
    let front = offered(s, there, n - 1);
    let now = offered(s, there, n);
    if k < n - 1 {
        what_exists_is_offered(s, there, n - 1, k);
        if front.contains(s[k]) {
            let i = choose|i: int| 0 <= i < front.len() && front[i] == s[k];
            assert(now[i] == s[k]);
        }
        if s[k].is_drive && there[k] {
            let i = choose|i: int|
                0 <= i < front.len() && same_path((#[trigger] front[i]).path, s[k].path);
            assert(now[i] == front[i]);
        }
    } else {
        if !s[k].is_drive && (there[k] || s[k].label == "Home"@) {
            assert(now[front.len() as int] == s[k]);
        }
        if s[k].is_drive && there[k] {
            if is_offered(front, s[k].path) {
                let i = choose|i: int|
                    0 <= i < front.len() && same_path((#[trigger] front[i]).path, s[k].path);
                assert(now[i] == front[i]);
            } else {
                assert(now[front.len() as int] == s[k]);
                assert(same_path(now[front.len() as int].path, s[k].path));
            }
        }
    }
}

/// A typed path is taken without the quotes round it; a blank line is no path.
pub proof fn quotes_round_a_path_are_dropped(path: Seq<char>)
    requires
        path.len() > 0,
        path[0] != '"',
        path.last() != '"',
        !crate::text::is_space(path[0]),
        !crate::text::is_space(path.last()),
    ensures
        typed_in(path) == Some(path),
        typed_in(seq!['"'] + path + seq!['"']) == Some(path),
        typed_in(seq![]) is None,
{
    crate::text::lemma_nothing_to_trim(path);
    let q = seq!['"'] + path + seq!['"'];
    assert(!crate::text::is_space('"'));
    crate::text::lemma_nothing_to_trim(q);
    assert(q.drop_first() =~= path + seq!['"']);
    assert((path + seq!['"']).drop_last() =~= path);
    assert(without_front(q, '"') == without_front(path + seq!['"'], '"'));
    assert(without_front(path + seq!['"'], '"') == path + seq!['"']);
    assert(without_end(path + seq!['"'], '"') == without_end(path, '"'));
    crate::text::lemma_nothing_to_trim(Seq::<char>::empty());
    assert(without_end(without_front(Seq::<char>::empty(), '"'), '"').len() == 0);
}

/// The folders that users keep their files in are offered below their home, and on Windows every drive
/// from `A:` to `Z:`.
pub proof fn usual_folders_are_candidates(
    s: Seq<CandidateRow>,
    home: Seq<char>,
    windows: bool,
    name: Seq<char>,
    letter: char,
)
    requires
        are_candidates(s, Some(home), windows),
        name == "Desktop"@ || name == "Downloads"@ || name == "Documents"@ || name == "Pictures"@,
        'A' <= letter <= 'Z',
    ensures
        exists|i: int|
            0 <= i < s.len() && (#[trigger] s[i]).path.text == home && s[i].label == "Home"@,
        exists|i: int|
            0 <= i < s.len() && (#[trigger] s[i]).label == name && is_path_of(
                s[i].path.text,
                seq![home, name],
            ),
        windows ==> exists|i: int|
            0 <= i < s.len() && (#[trigger] s[i]).is_drive && s[i].path.text == seq![letter]
                + ":\\"@,
        !windows ==> s.len() == 5,
{
    let names = folder_names();
    assert(names[0] == "Desktop"@ && names[1] == "Downloads"@ && names[2] == "Documents"@ && names[3]
        == "Pictures"@);
    let k: int = if name == "Desktop"@ {
        0
    } else if name == "Downloads"@ {
        1
    } else if name == "Documents"@ {
        2
    } else {
        3
    };
    assert(is_home(s[0], home));
    assert(is_folder(s[1 + k], home, names[k]));
    if windows {
        let d = letter as int - 65;
        assert((65 + d) as u8 as char == letter);
        assert(drive_label(d) == drive_label(d));
        assert(is_drive_candidate(s[5 + d], d));
        assert(drive_text(d) == seq![letter] + ":\\"@);
    }
}

} // verus!
