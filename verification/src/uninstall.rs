//! The uninstaller: which application is meant, how it is removed, and what it leaves behind.
//!
//! The vendor's own uninstaller is run; games are left to Steam; only a portable application, which
//! has no uninstaller, is deleted, through the safety guard. What is left behind in the usual places
//! is then offered for deletion through the same guard. Registry entries are reported, never deleted.

use vstd::prelude::*;
use vstd::slice::slice_subrange;

use crate::apps::{app_rows, AppEntry, AppRow, Source};
use crate::clean::{
    among, is_turn, lemma_noted, lemma_ready_on, noted, only, ready_on, step, AuditEntry, Cleaner,
    CleanerRow, Failure, Hands, Turn,
};
use crate::inventory::truncate;
use crate::number::{
    align_left, align_right, decimal, decimal_of, left_aligned, right_aligned, signed_decimal,
    signed_decimal_of,
};
use crate::paths::{is_path_of, path_below, reads_as, PathParts, PathRow};
use crate::safety::{refusal, with_var, Env, Safety, SafetyRow};
use crate::scan::{entry_size, held, plus, size_or_nothing, Node};
use crate::sources::{
    found_opt, found_rows, lists_dirs, sizes_read, Dirs, Found, FoundRow, PortableWorld,
};
use crate::targets::{answers, answers_all};
use crate::text::{
    all_ascii, append, ascii_lower, chars_of, contains, contains_text, copy, digit, find, find_char,
    folded, has_prefix, has_text, hex, is_digit, is_hex, is_space, join, joined, lemma_place_of,
    lemma_rewritten_step, lower_ascii, lower_chars, no_texts, nonempty, place_of, position,
    push_text, rewritten, rows, same, split_by, starts_with, str_texts, string_of, text_opt, texts,
    trim_str, trimmed, words, words_of,
};
use crate::ui::{fmt_size, painted, size_text, truncated, Style};

verus! {

/// What the uninstaller is asked for.
pub struct UninstallOptions {
    pub filter: String,
    pub dry_run: bool,
    pub yes: bool,
    pub no_color: bool,
}

// ---------------------------------------------------------------------------
// Commands
// ---------------------------------------------------------------------------

/// Every character is a hexadecimal digit or a hyphen.
pub open spec fn guid_chars(s: Seq<char>) -> bool {
    forall|i: int| 0 <= i < s.len() ==> is_hex(#[trigger] s[i]) || s[i] == '-'
}

/// The product code of a Windows Installer command: what stands in the first braces, where that has
/// the form of one.
pub open spec fn product_code(s: Seq<char>) -> Option<Seq<char>> {
    let a = position(s, '{');
    let rest = s.skip(a);
    let b = position(rest, '}');
    let guid = rest.take(b + 1);
    if contains(folded(s), "msiexec"@) && a < s.len() && b < rest.len() && guid.len() == 38
        && guid_chars(guid.subrange(1, 37)) {
        Some(guid)
    } else {
        None
    }
}

fn extract_msi_guid(s: &[char]) -> (r: Option<String>)
    ensures
        text_opt(r) == product_code(s@),
{
    let lower = lower_chars(s);
    if !contains_text(lower.as_slice(), chars_of("msiexec").as_slice()) {
        return None;
    }
    let a = find_char(s, '{');
    if a >= s.len() {
        return None;
    }
    let rest = slice_subrange(s, a, s.len());
    assert(rest@ =~= s@.skip(a as int));
    let b = find_char(rest, '}');
    if b >= rest.len() || b + 1 != 38 {
        return None;
    }
    let guid = slice_subrange(rest, 0, b + 1);
    assert(guid@ =~= rest@.take(b + 1));
    let ghost inner = guid@.subrange(1, 37);
    for i in 1..37
        invariant
            guid@.len() == 38,
            inner == guid@.subrange(1, 37),
            product_code(s@) is Some == guid_chars(inner),
            forall|j: int| 0 <= j < i - 1 ==> is_hex(#[trigger] inner[j]) || inner[j] == '-',
    {
        assert(inner[i - 1] == guid@[i as int]);
        if !hex(guid[i]) && guid[i] != '-' {
            return None;
        }
    }
    Some(string_of(guid))
}

/// A command line split into the program and its arguments. A quoted program ends at the closing
/// quote; an unquoted one ends behind the first `.exe`, since its path may hold blanks; else it is
/// the first word.
pub open spec fn split_command(line: Seq<char>) -> Option<Seq<Seq<char>>> {
    let s = trimmed(line);
    let lower = ascii_lower(s);
    if has_prefix(s, "\""@) {
        let rest = s.skip(1);
        let n = position(rest, '"');
        if n < rest.len() {
            Some(seq![rest.take(n)] + words_of(rest.skip(n + 1)))
        } else {
            None
        }
    } else if contains(lower, ".exe"@) {
        let end = place_of(lower, ".exe"@) + 4;
        Some(seq![s.take(end)] + words_of(s.skip(end)))
    } else if words_of(s).len() == 0 {
        None
    } else {
        let n = position(s, ' ');
        Some(
            seq![words_of(s)[0]] + (if n < s.len() {
                words_of(s.skip(n + 1))
            } else {
                seq![]
            }),
        )
    }
}

/// The texts of an optional list of strings.
pub open spec fn argv_opt(o: Option<Vec<String>>) -> Option<Seq<Seq<char>>> {
    match o {
        Some(v) => Some(texts(v@)),
        None => None,
    }
}

/// The program, and behind it the words of the rest.
fn with_words(program: &[char], rest: &[char]) -> (r: Vec<String>)
    ensures
        texts(r@) == seq![program@] + words_of(rest@),
{
    let mut out = no_texts();
    push_text(&mut out, string_of(program));
    let w = words(rest);
    let ghost all = rows(w@);
    assert(texts(out@) =~= seq![program@] + all.take(0));
    for i in 0..w.len()
        invariant
            all == rows(w@),
            texts(out@) == seq![program@] + all.take(i as int),
    {
        push_text(&mut out, string_of(w[i].as_slice()));
        assert(texts(out@) =~= seq![program@] + all.take(i + 1));
    }
    assert(all.take(all.len() as int) =~= all);
    out
}

/// Splits a Windows command line into the program and its arguments.
pub fn split_command_line(line: &str) -> (r: Option<Vec<String>>)
    ensures
        argv_opt(r) == split_command(line@),
{
    proof {
        reveal_strlit("\"");
        reveal_strlit(".exe");
    }
    let t = trim_str(line);
    let s = t.as_slice();
    if starts_with(s, "\"") {
        let rest = slice_subrange(s, 1, s.len());
        assert(rest@ =~= s@.skip(1));
        let n = find_char(rest, '"');
        if n >= rest.len() {
            return None;
        }
        let program = slice_subrange(rest, 0, n);
        let behind = slice_subrange(rest, n + 1, rest.len());
        assert(program@ =~= rest@.take(n as int));
        assert(behind@ =~= rest@.skip(n + 1));
        return Some(with_words(program, behind));
    }
    let lower = lower_ascii(s);
    match find(lower.as_slice(), chars_of(".exe").as_slice()) {
        Some(at) => {
            proof {
                lemma_place_of(lower@, ".exe"@, at as int);
                assert(lower@.len() == s@.len());
            }
            let len = s.len();
            let end: usize = at + 4;
            let program = slice_subrange(s, 0, end);
            let behind = slice_subrange(s, end, len);
            assert(program@ =~= s@.take(end as int));
            assert(behind@ =~= s@.skip(end as int));
            Some(with_words(program, behind))
        },
        None => {
            let w = words(s);
            if w.len() == 0 {
                return None;
            }
            assert(rows(w@)[0] == w@[0]@);
            let n = find_char(s, ' ');
            if n < s.len() {
                let behind = slice_subrange(s, n + 1, s.len());
                assert(behind@ =~= s@.skip(n + 1));
                Some(with_words(w[0].as_slice(), behind))
            } else {
                let mut out = no_texts();
                push_text(&mut out, string_of(w[0].as_slice()));
                assert(texts(out@) =~= seq![w@[0]@] + Seq::<Seq<char>>::empty());
                Some(out)
            }
        },
    }
}

/// The command that an uninstall string stands for. Whatever a Windows Installer entry spells, it
/// becomes `msiexec /x {GUID} /qb`.
pub open spec fn command_for(s: Seq<char>) -> Option<Seq<Seq<char>>> {
    let t = trimmed(s);
    if t.len() == 0 {
        None
    } else {
        match product_code(t) {
            Some(guid) => Some(seq!["msiexec"@, "/x"@, guid, "/qb"@]),
            None => split_command(t),
        }
    }
}

/// The command that an uninstall string stands for.
pub fn uninstall_command(uninstall_string: &str) -> (r: Option<Vec<String>>)
    ensures
        argv_opt(r) == command_for(uninstall_string@),
{
    let t = trim_str(uninstall_string);
    if t.len() == 0 {
        return None;
    }
    if let Some(guid) = extract_msi_guid(t.as_slice()) {
        let mut out = no_texts();
        push_text(&mut out, "msiexec".to_string());
        push_text(&mut out, "/x".to_string());
        let ghost g = guid@;
        push_text(&mut out, guid);
        push_text(&mut out, "/qb".to_string());
        assert(texts(out@) =~= seq!["msiexec"@, "/x"@, g, "/qb"@]);
        return Some(out);
    }
    let text = string_of(t.as_slice());
    split_command_line(text.as_str())
}

/// How an application is removed.
pub enum Step {
    /// Its directory is deleted, through the safety guard.
    Delete,
    /// Steam removes it, through this address.
    Steam(String),
    /// This command is run.
    Run(Vec<String>),
    /// There is no usable command, and this is said.
    Unusable(String),
}

/// How an application is removed, as mathematical data.
pub enum StepRow {
    Delete,
    Steam(Seq<char>),
    Run(Seq<Seq<char>>),
    Unusable(Seq<char>),
}

impl View for Step {
    type V = StepRow;

    open spec fn view(&self) -> StepRow {
        match self {
            Step::Delete => StepRow::Delete,
            Step::Steam(s) => StepRow::Steam(s@),
            Step::Run(v) => StepRow::Run(texts(v@)),
            Step::Unusable(s) => StepRow::Unusable(s@),
        }
    }
}

/// How an application is removed: a portable one is deleted, a game is left to Steam, everything else
/// is removed by its vendor's uninstaller.
pub open spec fn step_for(a: AppRow) -> StepRow {
    match a.source {
        Source::Portable => StepRow::Delete,
        Source::Steam => StepRow::Steam(a.uninstall_string),
        _ => match command_for(a.uninstall_string) {
            Some(argv) => StepRow::Run(argv),
            None => StepRow::Unusable("no usable UninstallString for "@ + a.name),
        },
    }
}

/// How an application is removed.
pub fn uninstall_step(app: &AppEntry) -> (r: Step)
    ensures
        r@ == step_for(app@),
{
    match app.source {
        Source::Portable => Step::Delete,
        Source::Steam => Step::Steam(app.uninstall_string.clone()),
        _ => match uninstall_command(app.uninstall_string.as_str()) {
            Some(argv) => Step::Run(argv),
            None => {
                let mut out = "no usable UninstallString for ".to_string();
                out.append(app.name.as_str());
                Step::Unusable(out)
            },
        },
    }
}

/// The command that has the shell hand an address to Steam.
pub open spec fn steam_argv(address: Seq<char>) -> Seq<Seq<char>> {
    seq!["cmd"@, "/C"@, "start"@, ""@, address]
}

/// The command that has the shell hand an address to Steam.
pub fn steam_command(address: &str) -> (r: Vec<String>)
    ensures
        texts(r@) == steam_argv(address@),
{
    let mut out = no_texts();
    push_text(&mut out, "cmd".to_string());
    push_text(&mut out, "/C".to_string());
    push_text(&mut out, "start".to_string());
    push_text(&mut out, "".to_string());
    push_text(&mut out, address.to_string());
    assert(texts(out@) =~= steam_argv(address@));
    out
}

/// What happens next while an application is removed.
#[derive(Clone, Copy, PartialEq, Eq, Debug, Structural)]
pub enum Stage {
    /// The user is asked whether it is removed.
    Ask,
    /// It is removed.
    Remove,
    /// What it left behind is looked for.
    Leftovers,
    /// The user is asked whether the directories that were left behind are deleted.
    AskLeftovers,
    /// They are deleted.
    Sweep,
    /// There is nothing more to do; it ended well or not.
    End(bool),
}

/// What is said to an answer, and what happens next.
pub struct Heard {
    pub text: String,
    pub stage: Stage,
}

/// What follows an answer, as mathematical data.
pub struct HeardRow {
    pub text: Seq<char>,
    pub stage: Stage,
}

impl View for Heard {
    type V = HeardRow;

    open spec fn view(&self) -> HeardRow {
        HeardRow { text: self.text@, stage: self.stage }
    }
}

/// How removing an application starts: the user is asked, but for a dry run and where consent was given
/// beforehand, for this application or for all that were chosen together.
pub fn first_stage(opts: &UninstallOptions, agreed: bool) -> (r: Stage)
    ensures
        r == (if !opts.dry_run && !opts.yes && !agreed {
            Stage::Ask
        } else {
            Stage::Remove
        }),
{
    if !opts.dry_run && !opts.yes && !agreed {
        Stage::Ask
    } else {
        Stage::Remove
    }
}

/// Takes in whether the application is removed.
pub fn take_answer(yes: bool) -> (r: Heard)
    ensures
        r@ == (if yes {
            HeardRow { text: seq![], stage: Stage::Remove }
        } else {
            HeardRow { text: "Aborted.\n"@, stage: Stage::End(true) }
        }),
{
    if yes {
        Heard { text: nothing(), stage: Stage::Remove }
    } else {
        Heard { text: "Aborted.\n".to_string(), stage: Stage::End(true) }
    }
}

/// What follows the removal: what remains is looked for where it succeeded, but not of a game, whose
/// saved state it could be.
pub fn after_removing(ok: bool, source: Source) -> (r: Stage)
    ensures
        r == (if !ok {
            Stage::End(false)
        } else if source == Source::Steam {
            Stage::End(true)
        } else {
            Stage::Leftovers
        }),
{
    if !ok {
        Stage::End(false)
    } else if matches!(source, Source::Steam) {
        Stage::End(true)
    } else {
        Stage::Leftovers
    }
}

/// What is said of a command, and whether it is run.
pub struct Launch {
    pub text: String,
    pub run: bool,
}

/// What is said of a command: the command itself, and that another system than Windows does not run
/// it.
pub open spec fn launch_text(argv: Seq<Seq<char>>, dry_run: bool, windows: bool, on: bool) -> Seq<
    char,
> {
    painted(on, "2"@, "running:"@) + " "@ + joined(argv, " "@) + "\n"@ + (if dry_run || windows {
        seq![]
    } else {
        painted(on, "33"@, "not on Windows, skipping execution"@) + "\n"@
    })
}

/// What is said of a command, and whether it is run: on Windows alone, and not in a dry run.
pub fn launch(argv: &Vec<String>, dry_run: bool, windows: bool, style: &Style) -> (r: Launch)
    ensures
        r.text@ == launch_text(texts(argv@), dry_run, windows, style.on),
        r.run == (windows && !dry_run),
{
    let mut text = style.dim("running:");
    text.append(" ");
    text.append(join(argv, " ").as_str());
    text.append("\n");
    let more = if dry_run || windows {
        nothing()
    } else {
        let mut s = style.yellow("not on Windows, skipping execution");
        s.append("\n");
        s
    };
    text.append(more.as_str());
    Launch { text, run: windows && !dry_run }
}

/// How a vendor's uninstaller ended.
pub enum Exit {
    /// It ended with this code; one that was killed has none.
    Code(Option<i32>),
    /// It could not be started, and why.
    NotStarted(String),
}

/// What is said, and where, and whether the uninstall went on.
pub struct Said {
    pub text: String,
    /// On the error stream.
    pub is_error: bool,
    /// The uninstall goes on.
    pub ok: bool,
}

/// What is said, as mathematical data.
pub struct SaidRow {
    pub text: Seq<char>,
    pub is_error: bool,
    pub ok: bool,
}

impl View for Said {
    type V = SaidRow;

    open spec fn view(&self) -> SaidRow {
        SaidRow { text: self.text@, is_error: self.is_error, ok: self.ok }
    }
}

/// The code that was returned, -1 where there is none.
pub open spec fn code_of(code: Option<i32>) -> int {
    match code {
        Some(c) => c as int,
        None => -1,
    }
}

/// What the end of the uninstaller means. 0 is success, and so is 3010, which asks for a restart;
/// 1602 is the user's refusal, after which nothing more is done; after any other code what remains is
/// still looked for.
pub open spec fn exit_verdict(exit: Exit, on: bool) -> SaidRow {
    match exit {
        Exit::Code(code) => if code_of(code) == 0 {
            SaidRow {
                text: painted(on, "32"@, "✓"@) + " vendor uninstaller finished"@,
                is_error: false,
                ok: true,
            }
        } else if code_of(code) == 3010 {
            SaidRow {
                text: painted(on, "32"@, "✓"@) + " uninstalled (reboot required)"@,
                is_error: false,
                ok: true,
            }
        } else {
            SaidRow {
                text: "uninstaller exited with code "@ + signed_decimal(code_of(code)),
                is_error: true,
                ok: code_of(code) != 1602,
            }
        },
        Exit::NotStarted(e) => SaidRow {
            text: "failed to launch uninstaller: "@ + e@,
            is_error: true,
            ok: false,
        },
    }
}

/// What the end of the uninstaller means.
pub fn after_exit(exit: &Exit, style: &Style) -> (r: Said)
    ensures
        r@ == exit_verdict(*exit, style.on),
{
    match exit {
        Exit::Code(code) => {
            let c: i32 = match code {
                Some(c) => *c,
                None => -1,
            };
            if c == 0 {
                let mut text = style.green("✓");
                text.append(" vendor uninstaller finished");
                Said { text, is_error: false, ok: true }
            } else if c == 3010 {
                let mut text = style.green("✓");
                text.append(" uninstalled (reboot required)");
                Said { text, is_error: false, ok: true }
            } else {
                let mut text = "uninstaller exited with code ".to_string();
                text.append(signed_decimal_of(c).as_str());
                Said { text, is_error: true, ok: c != 1602 }
            }
        },
        Exit::NotStarted(e) => {
            let mut text = "failed to launch uninstaller: ".to_string();
            text.append(e.as_str());
            Said { text, is_error: true, ok: false }
        },
    }
}

// ---------------------------------------------------------------------------
// Which application
// ---------------------------------------------------------------------------

/// The row of an application that answers.
pub open spec fn candidate_row(a: AppRow, on: bool) -> Seq<char> {
    "  "@ + left_aligned(truncated(a.name, 42), 42) + " "@ + left_aligned(
        truncated(a.version, 14),
        14,
    ) + " "@ + painted(on, "2"@, a.source.label_text()) + "\n"@
}

pub open spec fn candidate_rows(apps: Seq<AppRow>, on: bool, count: int) -> Seq<char>
    decreases count,
{
    if count <= 0 {
        seq![]
    } else {
        candidate_rows(apps, on, count - 1) + candidate_row(apps[count - 1], on)
    }
}

/// What is said when not exactly one application answers: nothing where one does.
pub open spec fn choice_problem(apps: Seq<AppRow>, filter: Seq<char>, on: bool) -> Option<SaidRow> {
    if apps.len() == 0 {
        Some(
            SaidRow {
                text: "no installed app matches '"@ + filter + "'"@,
                is_error: true,
                ok: false,
            },
        )
    } else if apps.len() == 1 {
        None
    } else {
        Some(
            SaidRow {
                text: decimal(apps.len()) + " matches for '"@ + filter
                    + "', be more specific:\n"@ + candidate_rows(
                    apps,
                    on,
                    if apps.len() < 10 {
                        apps.len() as int
                    } else {
                        10
                    },
                ),
                is_error: false,
                ok: false,
            },
        )
    }
}

pub open spec fn said_opt(o: Option<Said>) -> Option<SaidRow> {
    match o {
        Some(s) => Some(s@),
        None => None,
    }
}

/// What is said when not exactly one application answers to the words.
pub fn check_choice(apps: &Vec<AppEntry>, filter: &str, style: &Style) -> (r: Option<Said>)
    ensures
        said_opt(r) == choice_problem(app_rows(apps@), filter@, style.on),
{
    let ghost all = app_rows(apps@);
    if apps.len() == 0 {
        let mut text = "no installed app matches '".to_string();
        text.append(filter);
        text.append("'");
        return Some(Said { text, is_error: true, ok: false });
    }
    if apps.len() == 1 {
        return None;
    }
    let mut text = decimal_of(apps.len() as u64);
    text.append(" matches for '");
    text.append(filter);
    text.append("', be more specific:\n");
    let count: usize = if apps.len() < 10 {
        apps.len()
    } else {
        10
    };
    let mut list = String::new();
    assert(list@ =~= Seq::<char>::empty());
    for i in 0..count
        invariant
            count <= apps@.len(),
            all == app_rows(apps@),
            list@ == candidate_rows(all, style.on, i as int),
    {
        assert(all[i as int] == apps@[i as int]@);
        let mut row = "  ".to_string();
        row.append(align_left(truncate(apps[i].name.as_str(), 42).as_str(), 42).as_str());
        row.append(" ");
        row.append(align_left(truncate(apps[i].version.as_str(), 14).as_str(), 14).as_str());
        row.append(" ");
        row.append(style.dim(apps[i].source.label()).as_str());
        row.append("\n");
        list.append(row.as_str());
    }
    text.append(list.as_str());
    Some(Said { text, is_error: false, ok: false })
}

/// The heading of an uninstall.
pub open spec fn title_text(a: AppRow, on: bool, dry_run: bool) -> Seq<char> {
    painted(on, "1"@, "Uninstall"@) + "  "@ + painted(on, "36"@, a.name) + " "@ + a.version + "  "@
        + painted(on, "2"@, a.source.label_text()) + "\n"@ + (if a.location.len() == 0 {
        seq![]
    } else {
        "  "@ + painted(on, "2"@, a.location) + "\n"@
    }) + (if dry_run {
        painted(on, "33"@, "(dry run: nothing will be executed or deleted)"@) + "\n"@
    } else {
        seq![]
    })
}

fn nothing() -> (r: String)
    ensures
        r@ == Seq::<char>::empty(),
{
    let r = String::new();
    assert(r@ =~= Seq::<char>::empty());
    r
}

/// The heading of an uninstall.
pub fn title(app: &AppEntry, style: &Style, dry_run: bool) -> (r: String)
    ensures
        r@ == title_text(app@, style.on, dry_run),
{
    let mut out = style.bold("Uninstall");
    out.append("  ");
    out.append(style.cyan(app.name.as_str()).as_str());
    out.append(" ");
    out.append(app.version.as_str());
    out.append("  ");
    out.append(style.dim(app.source.label()).as_str());
    out.append("\n");
    let place = if chars_of(app.location.as_str()).len() == 0 {
        nothing()
    } else {
        let mut s = "  ".to_string();
        s.append(style.dim(app.location.as_str()).as_str());
        s.append("\n");
        s
    };
    out.append(place.as_str());
    let dry = if dry_run {
        let mut s = style.yellow("(dry run: nothing will be executed or deleted)");
        s.append("\n");
        s
    } else {
        nothing()
    };
    out.append(dry.as_str());
    out
}

// ---------------------------------------------------------------------------
// Portable applications
// ---------------------------------------------------------------------------

/// The cleaner of an uninstall: it deletes for real, and with no more than the user's own rights.
pub open spec fn uninstall_cleaner(safety: SafetyRow, windows: bool) -> CleanerRow {
    CleanerRow {
        safety,
        dry_run: false,
        windows,
        allow_elevation: false,
        audit: seq![],
        lines: seq![],
    }
}

/// What the deletion of a portable application comes to, by how the platform reads the path, what was
/// found there, and what the deletion answered.
pub open spec fn portable_verdict(
    safety: SafetyRow,
    windows: bool,
    path: Seq<char>,
    place: PathRow,
    found: Option<Node>,
    turn: Turn,
    dry_run: bool,
    on: bool,
) -> SaidRow {
    let size = size_text(held(size_or_nothing(found)));
    match refusal(safety, place) {
        Some(reason) => SaidRow {
            text: "refusing to delete "@ + path + ": "@ + reason,
            is_error: true,
            ok: false,
        },
        None => if dry_run {
            SaidRow {
                text: "would delete "@ + path + " ("@ + size + ")"@,
                is_error: false,
                ok: true,
            }
        } else if step(uninstall_cleaner(safety, windows), path, turn).1.deleted > 0 {
            SaidRow {
                text: painted(on, "32"@, "✓"@) + " deleted "@ + path + " ("@ + size + ")"@,
                is_error: false,
                ok: true,
            }
        } else {
            SaidRow {
                text: "could not delete "@ + path + " (files in use?)"@,
                is_error: true,
                ok: false,
            }
        },
    }
}

/// The answers are ones that the outside work gave.
pub open spec fn is_portable_course<
    R: Fn(&str) -> Option<Node>,
    D: Fn(&str) -> Result<(), Failure>,
    E: Fn(&str) -> bool,
    N: Fn(&AuditEntry),
>(
    h: Hands<R, D, E, N>,
    safety: SafetyRow,
    windows: bool,
    path: &str,
    place: PathRow,
    found: Option<Node>,
    turn: Turn,
    dry_run: bool,
) -> bool {
    &&& reads_as(path@, place)
    &&& refusal(safety, place) is None ==> call_ensures(h.read, (path,), found)
    &&& refusal(safety, place) is None && !dry_run ==> is_turn(
        h,
        uninstall_cleaner(safety, windows),
        path,
        turn,
    )
}

/// Removes a portable application: it has no uninstaller, so its directory is deleted, through the
/// same guard and with the same record as everything else. A dry run deletes nothing.
pub fn uninstall_portable<
    R: Fn(&str) -> Option<Node>,
    D: Fn(&str) -> Result<(), Failure>,
    E: Fn(&str) -> bool,
    N: Fn(&AuditEntry),
>(
    path: &str,
    safety: &Safety,
    windows: bool,
    dry_run: bool,
    style: &Style,
    hands: &Hands<R, D, E, N>,
) -> (r: Said)
    requires
        forall|p: &str| #[trigger] call_requires(hands.read, (p,)),
        !dry_run ==> ready_on(*hands, uninstall_cleaner(safety@, windows), only(path@)),
    ensures
        exists|place: PathRow, found: Option<Node>, turn: Turn|
            #[trigger] is_portable_course(
                *hands,
                safety@,
                windows,
                path,
                place,
                found,
                turn,
                dry_run,
            ) && r@ == portable_verdict(
                safety@,
                windows,
                path@,
                place,
                found,
                turn,
                dry_run,
                style.on,
            ) && (refusal(safety@, place) is None && !dry_run ==> noted(
                hands.note,
                seq![],
                step(uninstall_cleaner(safety@, windows), path@, turn).0.audit,
            )),
{
    let parts = PathParts::parse(path);
    let ghost place = parts@;
    let ghost any: Turn = arbitrary();
    match safety.check_parts(&parts) {
        Err(reason) => {
            let mut text = "refusing to delete ".to_string();
            text.append(path);
            text.append(": ");
            text.append(reason);
            assert(is_portable_course(*hands, safety@, windows, path, place, None, any, dry_run));
            return Said { text, is_error: true, ok: false };
        },
        Ok(_) => {},
    }
    let found = (hands.read)(path);
    let size = fmt_size(entry_size(&found));
    if dry_run {
        let mut text = "would delete ".to_string();
        text.append(path);
        text.append(" (");
        text.append(size.as_str());
        text.append(")");
        assert(is_portable_course(*hands, safety@, windows, path, place, found, any, dry_run));
        return Said { text, is_error: false, ok: true };
    }
    let mut cleaner = Cleaner::new(safety, false, windows);
    let ghost fresh = cleaner@;
    assert(fresh == uninstall_cleaner(safety@, windows));
    let gone = cleaner.remove_path(path, hands);
    let ghost turn = choose|t: Turn|
        #[trigger] is_turn(*hands, fresh, path, t) && cleaner@ == step(fresh, path@, t).0 && gone == (
        step(fresh, path@, t).1.deleted > 0 && !fresh.dry_run);
    assert(is_portable_course(*hands, safety@, windows, path, place, found, turn, dry_run));
    if gone {
        let mut text = style.green("✓");
        text.append(" deleted ");
        text.append(path);
        text.append(" (");
        text.append(size.as_str());
        text.append(")");
        Said { text, is_error: false, ok: true }
    } else {
        let mut text = "could not delete ".to_string();
        text.append(path);
        text.append(" (files in use?)");
        Said { text, is_error: true, ok: false }
    }
}

// ---------------------------------------------------------------------------
// What is left behind
// ---------------------------------------------------------------------------

/// Characters that part the words of a name.
pub open spec fn parts_words() -> spec_fn(char) -> bool {
    |c: char| c == ' ' || c == '(' || c == '['
}

/// The word is a version: digits and dots alone.
pub open spec fn is_version_word(w: Seq<char>) -> bool {
    w.len() > 0 && forall|i: int| 0 <= i < w.len() ==> is_digit(#[trigger] w[i]) || w[i] == '.'
}

/// The words in front of the first version.
pub open spec fn before_version(words: Seq<Seq<char>>) -> Seq<Seq<char>>
    decreases words.len(),
{
    if words.len() == 0 || is_version_word(words[0]) {
        seq![]
    } else {
        seq![words[0]] + before_version(words.drop_first())
    }
}

/// The name in lower case, without its version and what follows it; a name that is nothing but a
/// version stays.
pub open spec fn plain_name(name: Seq<char>) -> Seq<char> {
    let base = folded(trimmed(name));
    let cleaned = trimmed(
        joined(before_version(nonempty(split_by(base, parts_words()))), " "@),
    );
    if cleaned.len() == 0 {
        base
    } else {
        cleaned
    }
}

/// The list with a text that it does not hold yet.
pub open spec fn with_new(list: Seq<Seq<char>>, x: Seq<char>) -> Seq<Seq<char>> {
    if list.contains(x) {
        list
    } else {
        list.push(x)
    }
}

/// A character that installers put between the words of a name: a blank, a hyphen or an underscore.
pub open spec fn is_joint(c: char) -> bool {
    c == ' ' || c == '-' || c == '_'
}

/// What becomes of a character where `joint` stands between the words.
pub open spec fn with_joint(joint: Seq<char>) -> spec_fn(char) -> Seq<char> {
    |c: char| if is_joint(c) { joint } else { seq![c] }
}

/// The name with `joint` between its words.
pub open spec fn rejoined(s: Seq<char>, joint: Seq<char>) -> Seq<char> {
    rewritten(s, with_joint(joint))
}

/// The names that an installer might have given its directories: as it is, and with blanks, nothing,
/// hyphens or underscores between its words, whichever of them the name itself has.
pub open spec fn variants_of(name: Seq<char>) -> Seq<Seq<char>> {
    let base = plain_name(name);
    let a = with_new(seq![base], rejoined(base, seq![' ']));
    let b = with_new(a, rejoined(base, seq![]));
    let c = with_new(b, rejoined(base, seq!['-']));
    with_new(c, rejoined(base, seq!['_']))
}

fn rejoin(s: &[char], joint: &[char]) -> (r: Vec<char>)
    ensures
        r@ == rejoined(s@, joint@),
{
    let ghost f = with_joint(joint@);
    let mut out: Vec<char> = Vec::new();
    assert(s@.take(0) =~= Seq::<char>::empty());
    assert(out@ =~= rewritten(s@.take(0), f));
    for i in 0..s.len()
        invariant
            f == with_joint(joint@),
            out@ == rewritten(s@.take(i as int), f),
    {
        proof {
            lemma_rewritten_step(s@, f, i as int);
        }
        let ghost before = out@;
        let c = s[i];
        if c == ' ' || c == '-' || c == '_' {
            append(&mut out, joint);
        } else {
            out.push(c);
            assert(out@ =~= before + seq![c]);
        }
    }
    assert(s@.take(s@.len() as int) =~= s@);
    out
}

fn version_word(w: &[char]) -> (r: bool)
    ensures
        r == is_version_word(w@),
{
    if w.len() == 0 {
        return false;
    }
    for i in 0..w.len()
        invariant
            w@.len() > 0,
            forall|j: int| 0 <= j < i ==> is_digit(#[trigger] w@[j]) || w@[j] == '.',
    {
        if !digit(w[i]) && w[i] != '.' {
            return false;
        }
    }
    true
}

/// The pieces of a text that are not empty, between blanks and opening brackets.
fn name_words(s: &[char]) -> (r: Vec<Vec<char>>)
    ensures
        rows(r@) == nonempty(split_by(s@, parts_words())),
{
    broadcast use crate::text::lemma_rows_push;

    let ghost sep = parts_words();
    let ghost mut all: Seq<Seq<char>> = seq![];
    let mut out: Vec<Vec<char>> = Vec::new();
    let mut i: usize = 0;
    assert(s@.skip(0) =~= s@);
    assert(rows(out@) =~= nonempty(all)) by {
        reveal(Seq::filter);
    }
    assert(all + split_by(s@, sep) =~= split_by(s@, sep));
    loop
        invariant
            0 <= i <= s@.len(),
            sep == parts_words(),
            rows(out@) == nonempty(all),
            split_by(s@, sep) == all + split_by(s@.skip(i as int), sep),
        decreases s@.len() - i,
    {
        let mut k: usize = i;
        while k < s.len() && s[k] != ' ' && s[k] != '(' && s[k] != '['
            invariant
                i <= k <= s@.len(),
                sep == parts_words(),
                forall|j: int| i <= j < k ==> !sep(#[trigger] s@[j]),
            decreases s@.len() - k,
        {
            k = k + 1;
        }
        proof {
            crate::text::lemma_split_step(s@, sep, i as int, k as int);
        }
        let ghost piece = s@.subrange(i as int, k as int);
        let ghost before = all;
        proof {
            all = all.push(piece);
            assert(all =~= before + seq![piece]);
            before.lemma_filter_push(piece, |w: Seq<char>| w.len() > 0);
        }
        if k > i {
            out.push(copy(slice_subrange(s, i, k)));
        }
        assert(rows(out@) =~= nonempty(all));
        if k >= s.len() {
            return out;
        }
        assert(split_by(s@, sep) =~= all + split_by(s@.skip(k + 1), sep));
        i = k + 1;
    }
}

proof fn lemma_before_version(words: Seq<Seq<char>>, k: int)
    requires
        0 <= k <= words.len(),
        forall|j: int| 0 <= j < k ==> !is_version_word(#[trigger] words[j]),
        k == words.len() || is_version_word(words[k]),
    ensures
        before_version(words) == words.take(k),
    decreases words.len(),
{
    if k == 0 {
        assert(words.take(0) =~= Seq::<Seq<char>>::empty());
    } else {
        assert(!is_version_word(words[0]));
        let t = words.drop_first();
        assert forall|j: int| 0 <= j < k - 1 implies !is_version_word(#[trigger] t[j]) by {
            assert(t[j] == words[j + 1]);
        }
        if k < words.len() {
            assert(t[k - 1] == words[k]);
        }
        lemma_before_version(t, k - 1);
        assert(seq![words[0]] + t.take(k - 1) =~= words.take(k));
    }
}

fn plain_name_of(name: &str) -> (r: Vec<char>)
    ensures
        r@ == plain_name(name@),
{
    let base = lower_chars(trim_str(name).as_slice());
    let w = name_words(base.as_slice());
    let ghost all = rows(w@);
    let mut front = no_texts();
    let mut k: usize = 0;
    assert(texts(front@) =~= all.take(0));
    while k < w.len() && !version_word(w[k].as_slice())
        invariant
            k <= w@.len(),
            all == rows(w@),
            texts(front@) == all.take(k as int),
            forall|j: int| 0 <= j < k ==> !is_version_word(#[trigger] all[j]),
        decreases w@.len() - k,
    {
        assert(all[k as int] == w@[k as int]@);
        push_text(&mut front, string_of(w[k].as_slice()));
        assert(texts(front@) =~= all.take(k + 1));
        k = k + 1;
    }
    proof {
        if k < w@.len() {
            assert(all[k as int] == w@[k as int]@);
        }
        lemma_before_version(all, k as int);
    }
    let cleaned = trim_str(join(&front, " ").as_str());
    if cleaned.len() == 0 {
        base
    } else {
        cleaned
    }
}

fn push_new(list: &mut Vec<String>, x: &[char])
    ensures
        texts(final(list)@) == with_new(texts(old(list)@), x@),
{
    let s = string_of(x);
    if !has_text(list, s.as_str()) {
        push_text(list, s);
    }
}

/// The names that an installer might have given its directories: `My App` may be `my app`, `myapp`,
/// `my-app` or `my_app`, and so may `My-App` and `My_App`.
pub fn name_variants(name: &str) -> (r: Vec<String>)
    ensures
        texts(r@) == variants_of(name@),
{
    let base = plain_name_of(name);
    let mut out = no_texts();
    push_text(&mut out, string_of(base.as_slice()));
    assert(texts(out@) =~= seq![base@]);
    let blank: Vec<char> = vec![' '];
    let none: Vec<char> = Vec::new();
    let hyphen: Vec<char> = vec!['-'];
    let under: Vec<char> = vec!['_'];
    assert(blank@ =~= seq![' ']);
    assert(none@ =~= Seq::<char>::empty());
    assert(hyphen@ =~= seq!['-']);
    assert(under@ =~= seq!['_']);
    push_new(&mut out, rejoin(base.as_slice(), blank.as_slice()).as_slice());
    push_new(&mut out, rejoin(base.as_slice(), none.as_slice()).as_slice());
    push_new(&mut out, rejoin(base.as_slice(), hyphen.as_slice()).as_slice());
    push_new(&mut out, rejoin(base.as_slice(), under.as_slice()).as_slice());
    out
}

/// The places that variables name.
pub open spec fn leftover_places(env: Env) -> Seq<Seq<char>> {
    let a = with_var(seq![], "APPDATA"@, env);
    let b = with_var(a, "LOCALAPPDATA"@, env);
    with_var(b, "PROGRAMDATA"@, env)
}

/// The places where the data of applications is kept: those that variables name, and the user's own
/// programs.
pub open spec fn are_leftover_roots(list: Seq<Seq<char>>, env: Env) -> bool {
    let front = leftover_places(env);
    match env("LOCALAPPDATA"@) {
        Some(local) => {
            &&& list.len() == front.len() + 1
            &&& list.drop_last() == front
            &&& is_path_of(list.last(), seq![local, "Programs"@])
        },
        None => list == front,
    }
}

fn push_value<F: Fn(&str) -> Option<String>>(list: &mut Vec<String>, name: &str, lookup: &F)
    requires
        answers_all(*lookup),
    ensures
        forall|env: Env|
            answers(*lookup, env) ==> texts(final(list)@) == #[trigger] with_var(
                texts(old(list)@),
                name@,
                env,
            ),
{
    let got = lookup(name);
    let ghost shown = text_opt(got);
    if let Some(v) = got {
        push_text(list, v);
    }
    assert forall|env: Env| answers(*lookup, env) implies texts(list@) == #[trigger] with_var(
        texts(old(list)@),
        name@,
        env,
    ) by {
        assert(shown == env(name@));
    }
}

/// The places where the data of applications survives.
pub fn leftover_roots<F: Fn(&str) -> Option<String>>(lookup: &F) -> (r: Vec<String>)
    requires
        answers_all(*lookup),
    ensures
        forall|env: Env| answers(*lookup, env) ==> #[trigger] are_leftover_roots(texts(r@), env),
{
    let mut out = no_texts();
    push_value(&mut out, "APPDATA", lookup);
    push_value(&mut out, "LOCALAPPDATA", lookup);
    push_value(&mut out, "PROGRAMDATA", lookup);
    let ghost front = texts(out@);
    let local = lookup("LOCALAPPDATA");
    if let Some(l) = &local {
        let names: [&str; 1] = ["Programs"];
        let p = path_below(l.as_str(), names.as_slice());
        assert(seq![l@] + str_texts(names@) =~= seq![l@, "Programs"@]);
        push_text(&mut out, p);
        assert(texts(out@).drop_last() =~= front);
    }
    assert forall|env: Env| answers(*lookup, env) implies #[trigger] are_leftover_roots(
        texts(out@),
        env,
    ) by {
        assert(front == leftover_places(env));
        assert(text_opt(local) == env("LOCALAPPDATA"@));
    }
    out
}

/// A directory that was left behind.
pub struct Leftover {
    pub path: String,
    pub size: u64,
}

/// A directory that was left behind, as mathematical data.
pub struct LeftoverRow {
    pub path: Seq<char>,
    pub size: u64,
}

impl View for Leftover {
    type V = LeftoverRow;

    open spec fn view(&self) -> LeftoverRow {
        LeftoverRow { path: self.path@, size: self.size }
    }
}

pub open spec fn leftover_rows(v: Seq<Leftover>) -> Seq<LeftoverRow> {
    v.map_values(|l: Leftover| l@)
}

/// The entry is a directory of the application: its name is one that an installer might have given it.
pub open spec fn is_own(item: FoundRow, variants: Seq<Seq<char>>) -> bool {
    item.is_dir && variants.contains(folded(item.name))
}

/// The directories of the application among the entries of a directory.
pub open spec fn own_in(
    items: Seq<FoundRow>,
    variants: Seq<Seq<char>>,
    w: PortableWorld,
) -> Seq<LeftoverRow>
    decreases items.len(),
{
    if items.len() == 0 {
        seq![]
    } else {
        let front = own_in(items.drop_last(), variants, w);
        if is_own(items.last(), variants) {
            front.push(LeftoverRow { path: items.last().path, size: (w.sizes)(items.last().path) })
        } else {
            front
        }
    }
}

/// What was left behind at an entry: the directory of the application itself, or in the directory of
/// its publisher the directories of the application. The publisher's own directory holds other
/// applications too, and is none.
pub open spec fn leftovers_at(
    item: FoundRow,
    variants: Seq<Seq<char>>,
    publisher: Seq<char>,
    w: PortableWorld,
) -> Seq<LeftoverRow> {
    if is_own(item, variants) {
        seq![LeftoverRow { path: item.path, size: (w.sizes)(item.path) }]
    } else if item.is_dir && publisher.len() > 0 && folded(item.name) == publisher {
        match (w.dirs)(item.path) {
            Some(items) => own_in(items, variants, w),
            None => seq![],
        }
    } else {
        seq![]
    }
}

/// The directories that were left behind in one place.
pub open spec fn leftovers_in(
    items: Seq<FoundRow>,
    variants: Seq<Seq<char>>,
    publisher: Seq<char>,
    w: PortableWorld,
) -> Seq<LeftoverRow>
    decreases items.len(),
{
    if items.len() == 0 {
        seq![]
    } else {
        leftovers_in(items.drop_last(), variants, publisher, w) + leftovers_at(
            items.last(),
            variants,
            publisher,
            w,
        )
    }
}

/// The directories that were left behind in a list of places.
pub open spec fn leftovers_below(
    roots: Seq<Seq<char>>,
    variants: Seq<Seq<char>>,
    publisher: Seq<char>,
    w: PortableWorld,
) -> Seq<LeftoverRow>
    decreases roots.len(),
{
    if roots.len() == 0 {
        seq![]
    } else {
        let front = leftovers_below(roots.drop_last(), variants, publisher, w);
        match (w.dirs)(roots.last()) {
            Some(items) => front + leftovers_in(items, variants, publisher, w),
            None => front,
        }
    }
}

/// Everything that an application left behind: directories in the usual places, and the directory it
/// was installed in. That of a portable application is the application itself.
pub open spec fn leftovers_of(
    a: AppRow,
    roots: Seq<Seq<char>>,
    installed_there: bool,
    w: PortableWorld,
) -> Seq<LeftoverRow> {
    let below = leftovers_below(
        roots,
        variants_of(a.name),
        folded(trimmed(a.publisher)),
        w,
    );
    if a.location.len() > 0 && installed_there && a.source != Source::Portable {
        below.push(LeftoverRow { path: a.location, size: (w.sizes)(a.location) })
    } else {
        below
    }
}

fn push_leftover<R: Fn(&str) -> Option<Node>>(out: &mut Vec<Leftover>, path: &str, read: &R)
    requires
        forall|p: &str| #[trigger] call_requires(*read, (p,)),
    ensures
        forall|sizes: spec_fn(Seq<char>) -> u64|
            #[trigger] sizes_read(*read, sizes) ==> leftover_rows(final(out)@) == leftover_rows(
                old(out)@,
            ).push(LeftoverRow { path: path@, size: sizes(path@) }),
{
    let found = read(path);
    let size = entry_size(&found);
    let l = Leftover { path: path.to_string(), size };
    let ghost before = out@;
    out.push(l);
    assert(leftover_rows(out@) =~= leftover_rows(before).push(l@));
}

fn own(item: &Found, variants: &Vec<String>) -> (r: bool)
    ensures
        r == is_own(item@, texts(variants@)),
{
    item.is_dir && has_text(variants, item.name.as_str().to_lowercase().as_str())
}

/// Adds the directories of the application among the entries of a directory.
fn add_own<R: Fn(&str) -> Option<Node>>(
    out: &mut Vec<Leftover>,
    items: &Vec<Found>,
    variants: &Vec<String>,
    read: &R,
)
    requires
        forall|p: &str| #[trigger] call_requires(*read, (p,)),
    ensures
        forall|w: PortableWorld|
            sizes_read(*read, w.sizes) ==> leftover_rows(final(out)@) == leftover_rows(old(out)@)
                + #[trigger] own_in(found_rows(items@), texts(variants@), w),
{
    let ghost before = leftover_rows(out@);
    let ghost all = found_rows(items@);
    let ghost vs = texts(variants@);
    let mut i: usize = 0;
    assert(all.take(0) =~= Seq::<FoundRow>::empty());
    assert(before + Seq::<LeftoverRow>::empty() =~= before);
    while i < items.len()
        invariant
            i <= items@.len(),
            all == found_rows(items@),
            vs == texts(variants@),
            forall|p: &str| #[trigger] call_requires(*read, (p,)),
            forall|w: PortableWorld|
                sizes_read(*read, w.sizes) ==> leftover_rows(out@) == before + #[trigger] own_in(
                    all.take(i as int),
                    vs,
                    w,
                ),
        decreases items@.len() - i,
    {
        let item = &items[i];
        let ghost sofar = leftover_rows(out@);
        assert(all.take(i + 1).drop_last() =~= all.take(i as int));
        assert(all.take(i + 1).last() == item@);
        let hit = own(item, variants);
        if hit {
            push_leftover(out, item.path.as_str(), read);
        }
        assert forall|w: PortableWorld| sizes_read(*read, w.sizes) implies leftover_rows(out@)
            == before + #[trigger] own_in(all.take(i + 1), vs, w) by {
            let front = own_in(all.take(i as int), vs, w);
            assert(sofar == before + front);
            if hit {
                let row = LeftoverRow { path: item@.path, size: (w.sizes)(item@.path) };
                assert((before + front).push(row) =~= before + front.push(row));
            }
        }
        i = i + 1;
    }
    assert(all.take(all.len() as int) =~= all);
}

/// Adds what was left behind at an entry.
fn add_at<L: Fn(&str) -> Option<Vec<Found>>, R: Fn(&str) -> Option<Node>>(
    out: &mut Vec<Leftover>,
    item: &Found,
    variants: &Vec<String>,
    publisher: &[char],
    list: &L,
    read: &R,
)
    requires
        forall|p: &str| #[trigger] call_requires(*list, (p,)),
        forall|p: &str| #[trigger] call_requires(*read, (p,)),
    ensures
        forall|w: PortableWorld|
            lists_dirs(*list, w.dirs) && sizes_read(*read, w.sizes) ==> leftover_rows(final(out)@)
                == leftover_rows(old(out)@) + #[trigger] leftovers_at(
                item@,
                texts(variants@),
                publisher@,
                w,
            ),
{
    let ghost before = leftover_rows(out@);
    let ghost vs = texts(variants@);
    assert(before + Seq::<LeftoverRow>::empty() =~= before);
    if own(item, variants) {
        push_leftover(out, item.path.as_str(), read);
        assert forall|w: PortableWorld|
            lists_dirs(*list, w.dirs) && sizes_read(*read, w.sizes) implies leftover_rows(out@)
            == before + #[trigger] leftovers_at(item@, vs, publisher@, w) by {
            let row = LeftoverRow { path: item@.path, size: (w.sizes)(item@.path) };
            assert(sizes_read(*read, w.sizes));
            assert(before.push(row) =~= before + seq![row]);
        }
        return;
    }
    let name = item.name.as_str().to_lowercase();
    if !item.is_dir || publisher.len() == 0 || !same(
        chars_of(name.as_str()).as_slice(),
        publisher,
    ) {
        return;
    }
    let got = list(item.path.as_str());
    let ghost shown = found_opt(got);
    if let Some(items) = got {
        add_own(out, &items, variants, read);
        assert forall|w: PortableWorld|
            lists_dirs(*list, w.dirs) && sizes_read(*read, w.sizes) implies leftover_rows(out@)
            == before + #[trigger] leftovers_at(item@, vs, publisher@, w) by {
            assert(shown == (w.dirs)(item@.path));
            assert(leftover_rows(out@) == before + own_in(found_rows(items@), vs, w));
        }
    } else {
        assert forall|w: PortableWorld|
            lists_dirs(*list, w.dirs) && sizes_read(*read, w.sizes) implies leftover_rows(out@)
            == before + #[trigger] leftovers_at(item@, vs, publisher@, w) by {
            assert(shown == (w.dirs)(item@.path));
        }
    }
}

fn add_leftovers<L: Fn(&str) -> Option<Vec<Found>>, R: Fn(&str) -> Option<Node>>(
    out: &mut Vec<Leftover>,
    items: &Vec<Found>,
    variants: &Vec<String>,
    publisher: &[char],
    list: &L,
    read: &R,
)
    requires
        forall|p: &str| #[trigger] call_requires(*list, (p,)),
        forall|p: &str| #[trigger] call_requires(*read, (p,)),
    ensures
        forall|w: PortableWorld|
            lists_dirs(*list, w.dirs) && sizes_read(*read, w.sizes) ==> leftover_rows(final(out)@)
                == leftover_rows(old(out)@) + #[trigger] leftovers_in(
                found_rows(items@),
                texts(variants@),
                publisher@,
                w,
            ),
{
    let ghost before = leftover_rows(out@);
    let ghost all = found_rows(items@);
    let ghost vs = texts(variants@);
    let mut i: usize = 0;
    assert(all.take(0) =~= Seq::<FoundRow>::empty());
    assert(before + Seq::<LeftoverRow>::empty() =~= before);
    while i < items.len()
        invariant
            i <= items@.len(),
            all == found_rows(items@),
            vs == texts(variants@),
            forall|p: &str| #[trigger] call_requires(*list, (p,)),
            forall|p: &str| #[trigger] call_requires(*read, (p,)),
            forall|w: PortableWorld|
                lists_dirs(*list, w.dirs) && sizes_read(*read, w.sizes) ==> leftover_rows(out@)
                    == before + #[trigger] leftovers_in(all.take(i as int), vs, publisher@, w),
        decreases items@.len() - i,
    {
        let item = &items[i];
        let ghost sofar = leftover_rows(out@);
        assert(all.take(i + 1).drop_last() =~= all.take(i as int));
        assert(all.take(i + 1).last() == item@);
        add_at(out, item, variants, publisher, list, read);
        assert forall|w: PortableWorld|
            lists_dirs(*list, w.dirs) && sizes_read(*read, w.sizes) implies leftover_rows(out@)
            == before + #[trigger] leftovers_in(all.take(i + 1), vs, publisher@, w) by {
            let front = leftovers_in(all.take(i as int), vs, publisher@, w);
            let more = leftovers_at(item@, vs, publisher@, w);
            assert(sofar == before + front);
            assert(leftover_rows(out@) == sofar + more);
            assert(before + front + more =~= before + (front + more));
        }
        i = i + 1;
    }
    assert(all.take(all.len() as int) =~= all);
}

/// Everything that an application left behind. `installed_there` tells whether the directory it was
/// installed in is still there.
pub fn find_leftovers<L: Fn(&str) -> Option<Vec<Found>>, R: Fn(&str) -> Option<Node>>(
    app: &AppEntry,
    roots: &Vec<String>,
    installed_there: bool,
    list: &L,
    read: &R,
) -> (r: Vec<Leftover>)
    requires
        forall|p: &str| #[trigger] call_requires(*list, (p,)),
        forall|p: &str| #[trigger] call_requires(*read, (p,)),
    ensures
        forall|w: PortableWorld|
            lists_dirs(*list, w.dirs) && sizes_read(*read, w.sizes) ==> leftover_rows(r@)
                == #[trigger] leftovers_of(app@, texts(roots@), installed_there, w),
{
    let variants = name_variants(app.name.as_str());
    let publisher = lower_chars(trim_str(app.publisher.as_str()).as_slice());
    let ghost all = texts(roots@);
    let ghost vs = texts(variants@);
    let mut out: Vec<Leftover> = Vec::new();
    let mut i: usize = 0;
    assert(all.take(0) =~= Seq::<Seq<char>>::empty());
    assert(leftover_rows(out@) =~= Seq::<LeftoverRow>::empty());
    while i < roots.len()
        invariant
            i <= roots@.len(),
            all == texts(roots@),
            vs == texts(variants@),
            forall|p: &str| #[trigger] call_requires(*list, (p,)),
            forall|p: &str| #[trigger] call_requires(*read, (p,)),
            forall|w: PortableWorld|
                lists_dirs(*list, w.dirs) && sizes_read(*read, w.sizes) ==> leftover_rows(out@)
                    == #[trigger] leftovers_below(all.take(i as int), vs, publisher@, w),
        decreases roots@.len() - i,
    {
        let ghost sofar = leftover_rows(out@);
        assert(all.take(i + 1).drop_last() =~= all.take(i as int));
        assert(all.take(i + 1).last() == roots@[i as int]@);
        let got = list(roots[i].as_str());
        let ghost shown = found_opt(got);
        if let Some(items) = got {
            add_leftovers(&mut out, &items, &variants, publisher.as_slice(), list, read);
            assert forall|w: PortableWorld|
                lists_dirs(*list, w.dirs) && sizes_read(*read, w.sizes) implies leftover_rows(out@)
                == #[trigger] leftovers_below(all.take(i + 1), vs, publisher@, w) by {
                assert(sofar == leftovers_below(all.take(i as int), vs, publisher@, w));
                assert(shown == (w.dirs)(roots@[i as int]@));
                assert(leftover_rows(out@) == sofar + leftovers_in(
                    found_rows(items@),
                    vs,
                    publisher@,
                    w,
                ));
            }
        } else {
            assert forall|w: PortableWorld|
                lists_dirs(*list, w.dirs) && sizes_read(*read, w.sizes) implies leftover_rows(out@)
                == #[trigger] leftovers_below(all.take(i + 1), vs, publisher@, w) by {
                assert(sofar == leftovers_below(all.take(i as int), vs, publisher@, w));
                assert(shown == (w.dirs)(roots@[i as int]@));
            }
        }
        i = i + 1;
    }
    assert(all.take(all.len() as int) =~= all);
    let ghost below = leftover_rows(out@);
    let has_place = chars_of(app.location.as_str()).len() > 0 && installed_there && !matches!(
        app.source,
        Source::Portable
    );
    if has_place {
        push_leftover(&mut out, app.location.as_str(), read);
    }
    assert forall|w: PortableWorld|
        lists_dirs(*list, w.dirs) && sizes_read(*read, w.sizes) implies leftover_rows(out@)
        == #[trigger] leftovers_of(app@, all, installed_there, w) by {
        assert(below == leftovers_below(all, vs, publisher@, w));
    }
    out
}

// ---------------------------------------------------------------------------
// Offering what was left behind
// ---------------------------------------------------------------------------

/// What the directories hold together.
pub open spec fn leftover_total(s: Seq<LeftoverRow>) -> nat
    decreases s.len(),
{
    if s.len() == 0 {
        0
    } else {
        leftover_total(s.drop_last()) + s.last().size as nat
    }
}

pub open spec fn leftover_list(s: Seq<LeftoverRow>) -> Seq<char>
    decreases s.len(),
{
    if s.len() == 0 {
        seq![]
    } else {
        leftover_list(s.drop_last()) + "  "@ + right_aligned(size_text(s.last().size as nat), 10)
            + "  "@ + s.last().path + "\n"@
    }
}

/// What is said of the directories that were left behind. The registry entry is only reported.
pub open spec fn leftover_text(
    a: AppRow,
    s: Seq<LeftoverRow>,
    dry_run: bool,
    on: bool,
) -> Seq<char> {
    (if a.reg_key.len() > 0 && !dry_run {
        painted(
            on,
            "2"@,
            "registry entry (removed by the uninstaller, or remove manually): "@ + a.reg_key,
        ) + "\n"@
    } else {
        seq![]
    }) + (if s.len() == 0 {
        painted(on, "2"@, "no filesystem leftovers found"@) + "\n"@
    } else {
        "\n"@ + painted(on, "1"@, "Leftovers found"@) + " ("@ + size_text(held(leftover_total(s)))
            + "):\n"@ + leftover_list(s) + (if dry_run {
            painted(on, "33"@, "dry run: leftovers not deleted"@) + "\n"@
        } else {
            seq![]
        })
    })
}

/// What is said of the directories that were left behind.
pub fn leftover_report(
    app: &AppEntry,
    leftovers: &Vec<Leftover>,
    dry_run: bool,
    style: &Style,
) -> (r: String)
    ensures
        r@ == leftover_text(app@, leftover_rows(leftovers@), dry_run, style.on),
{
    let ghost all = leftover_rows(leftovers@);
    let mut out = if chars_of(app.reg_key.as_str()).len() > 0 && !dry_run {
        let mut said =
            "registry entry (removed by the uninstaller, or remove manually): ".to_string();
        said.append(app.reg_key.as_str());
        let mut s = style.dim(said.as_str());
        s.append("\n");
        s
    } else {
        nothing()
    };
    if leftovers.len() == 0 {
        let mut s = style.dim("no filesystem leftovers found");
        s.append("\n");
        out.append(s.as_str());
        return out;
    }
    let mut sum: u64 = 0;
    let mut list = nothing();
    assert(all.take(0) =~= Seq::<LeftoverRow>::empty());
    for i in 0..leftovers.len()
        invariant
            all == leftover_rows(leftovers@),
            sum == held(leftover_total(all.take(i as int))),
            list@ == leftover_list(all.take(i as int)),
    {
        assert(all.take(i + 1).drop_last() =~= all.take(i as int));
        assert(all.take(i + 1).last() == leftovers@[i as int]@);
        sum = plus(sum, leftovers[i].size);
        list.append("  ");
        list.append(align_right(fmt_size(leftovers[i].size).as_str(), 10).as_str());
        list.append("  ");
        list.append(leftovers[i].path.as_str());
        list.append("\n");
    }
    assert(all.take(all.len() as int) =~= all);
    let mut found = "\n".to_string();
    found.append(style.bold("Leftovers found").as_str());
    found.append(" (");
    found.append(fmt_size(sum).as_str());
    found.append("):\n");
    found.append(list.as_str());
    let dry = if dry_run {
        let mut s = style.yellow("dry run: leftovers not deleted");
        s.append("\n");
        s
    } else {
        nothing()
    };
    found.append(dry.as_str());
    out.append(found.as_str());
    out
}

/// What is done with the directories that were left behind: a dry run deletes none, and without
/// consent beforehand the user is asked.
pub fn offer(count: usize, dry_run: bool, yes: bool) -> (r: Stage)
    ensures
        r == (if count == 0 || dry_run {
            Stage::End(true)
        } else if yes {
            Stage::Sweep
        } else {
            Stage::AskLeftovers
        }),
{
    if count == 0 || dry_run {
        Stage::End(true)
    } else if yes {
        Stage::Sweep
    } else {
        Stage::AskLeftovers
    }
}

/// Takes in whether the directories that were left behind are deleted.
pub fn take_leftover_answer(yes: bool) -> (r: Heard)
    ensures
        r@ == (if yes {
            HeardRow { text: seq![], stage: Stage::Sweep }
        } else {
            HeardRow { text: "Leftovers kept.\n"@, stage: Stage::End(true) }
        }),
{
    if yes {
        Heard { text: nothing(), stage: Stage::Sweep }
    } else {
        Heard { text: "Leftovers kept.\n".to_string(), stage: Stage::End(true) }
    }
}

/// What was freed and how many directories stayed, when each had its turn.
pub struct Swept {
    pub freed: u64,
    pub kept: usize,
}

/// The state before the turn of one of the directories.
pub open spec fn before_turn(
    c: CleanerRow,
    s: Seq<LeftoverRow>,
    turns: Seq<Turn>,
    i: int,
) -> CleanerRow
    decreases i,
{
    if i <= 0 {
        c
    } else {
        step(before_turn(c, s, turns, i - 1), s[i - 1].path, turns[i - 1]).0
    }
}

/// The directory was deleted at its turn.
pub open spec fn was_deleted(c: CleanerRow, s: Seq<LeftoverRow>, turns: Seq<Turn>, i: int) -> bool {
    step(before_turn(c, s, turns, i), s[i].path, turns[i]).1.deleted > 0
}

/// What the deleted directories among the first `n` held together.
pub open spec fn freed_by(c: CleanerRow, s: Seq<LeftoverRow>, turns: Seq<Turn>, n: int) -> nat
    decreases n,
{
    if n <= 0 {
        0
    } else {
        freed_by(c, s, turns, n - 1) + (if was_deleted(c, s, turns, n - 1) {
            s[n - 1].size as nat
        } else {
            0nat
        })
    }
}

/// How many of the first `n` stayed.
pub open spec fn kept_by(c: CleanerRow, s: Seq<LeftoverRow>, turns: Seq<Turn>, n: int) -> nat
    decreases n,
{
    if n <= 0 {
        0
    } else {
        kept_by(c, s, turns, n - 1) + (if was_deleted(c, s, turns, n - 1) {
            0nat
        } else {
            1nat
        })
    }
}

proof fn lemma_turns_behind(
    c: CleanerRow,
    s: Seq<LeftoverRow>,
    turns: Seq<Turn>,
    more: Turn,
    n: int,
)
    requires
        0 <= n <= turns.len(),
    ensures
        before_turn(c, s, turns.push(more), n) == before_turn(c, s, turns, n),
        freed_by(c, s, turns.push(more), n) == freed_by(c, s, turns, n),
        kept_by(c, s, turns.push(more), n) == kept_by(c, s, turns, n),
        kept_by(c, s, turns, n) <= n,
    decreases n,
{
    if n > 0 {
        lemma_turns_behind(c, s, turns, more, n - 1);
        assert(turns.push(more)[n - 1] == turns[n - 1]);
    }
}

/// Every answer is one that the outside work gave for the directory in its place.
pub open spec fn are_sweep_turns<
    R: Fn(&str) -> Option<Node>,
    D: Fn(&str) -> Result<(), Failure>,
    E: Fn(&str) -> bool,
    N: Fn(&AuditEntry),
>(h: Hands<R, D, E, N>, c: CleanerRow, s: Seq<LeftoverRow>, turns: Seq<Turn>) -> bool {
    &&& turns.len() == s.len()
    &&& forall|i: int|
        0 <= i < s.len() ==> crate::clean::turn_fits(
            h,
            c,
            crate::clean::ListedRow::Path(s[i].path),
            #[trigger] turns[i],
        )
}

/// The paths of the directories.
pub open spec fn leftover_paths(s: Seq<LeftoverRow>) -> Seq<Seq<char>> {
    s.map_values(|l: LeftoverRow| l.path)
}

/// Deletes the directories that were left behind, each through the same guard as everything else, and
/// nothing but them.
pub fn sweep<
    R: Fn(&str) -> Option<Node>,
    D: Fn(&str) -> Result<(), Failure>,
    E: Fn(&str) -> bool,
    N: Fn(&AuditEntry),
>(leftovers: &Vec<Leftover>, safety: &Safety, windows: bool, hands: &Hands<R, D, E, N>) -> (r: Swept)
    requires
        ready_on(
            *hands,
            uninstall_cleaner(safety@, windows),
            among(leftover_paths(leftover_rows(leftovers@))),
        ),
    ensures
        exists|turns: Seq<Turn>|
            #[trigger] are_sweep_turns(
                *hands,
                uninstall_cleaner(safety@, windows),
                leftover_rows(leftovers@),
                turns,
            ) && r.freed == held(
                freed_by(
                    uninstall_cleaner(safety@, windows),
                    leftover_rows(leftovers@),
                    turns,
                    leftovers@.len() as int,
                ),
            ) && r.kept == kept_by(
                uninstall_cleaner(safety@, windows),
                leftover_rows(leftovers@),
                turns,
                leftovers@.len() as int,
            ) && noted(
                hands.note,
                seq![],
                before_turn(
                    uninstall_cleaner(safety@, windows),
                    leftover_rows(leftovers@),
                    turns,
                    leftovers@.len() as int,
                ).audit,
            ),
{
    let ghost all = leftover_rows(leftovers@);
    let mut cleaner = Cleaner::new(safety, false, windows);
    let ghost c = cleaner@;
    let ghost mut turns: Seq<Turn> = seq![];
    let mut freed: u64 = 0;
    let mut kept: usize = 0;
    let mut i: usize = 0;
    while i < leftovers.len()
        invariant
            i <= leftovers@.len(),
            all == leftover_rows(leftovers@),
            c == uninstall_cleaner(safety@, windows),
            ready_on(*hands, c, among(leftover_paths(all))),
            crate::clean::same_rules(c, cleaner@),
            turns.len() == i,
            cleaner@ == before_turn(c, all, turns, i as int),
            forall|k: int|
                0 <= k < i ==> crate::clean::turn_fits(
                    *hands,
                    c,
                    crate::clean::ListedRow::Path(all[k].path),
                    #[trigger] turns[k],
                ),
            freed == held(freed_by(c, all, turns, i as int)),
            kept == kept_by(c, all, turns, i as int),
            kept <= i,
            noted(hands.note, seq![], cleaner@.audit),
        decreases leftovers@.len() - i,
    {
        let ghost mid = cleaner@;
        let ghost before = turns;
        assert(all[i as int] == leftovers@[i as int]@);
        let path = leftovers[i].path.as_str();
        proof {
            let offered = leftover_paths(all);
            assert(offered[i as int] == path@);
            lemma_ready_on(*hands, c, mid, among(offered), only(path@));
        }
        let gone = cleaner.remove_path(path, hands);
        let ghost turn = choose|t: Turn|
            #[trigger] is_turn(*hands, mid, path, t) && cleaner@ == step(mid, path@, t).0 && gone
                == (step(mid, path@, t).1.deleted > 0 && !mid.dry_run);
        proof {
            turns = before.push(turn);
            lemma_turns_behind(c, all, before, turn, i as int);
            assert(is_turn(*hands, c, path, turn));
            assert(step(mid, path@, turn).0.dry_run == mid.dry_run);
            lemma_noted(hands.note, seq![], mid.audit, cleaner@.audit);
            assert(was_deleted(c, all, turns, i as int) == gone);
            assert forall|k: int| 0 <= k < i + 1 implies crate::clean::turn_fits(
                *hands,
                c,
                crate::clean::ListedRow::Path(all[k].path),
                #[trigger] turns[k],
            ) by {
                if k < i {
                    assert(turns[k] == before[k]);
                }
            }
        }
        if gone {
            freed = plus(freed, leftovers[i].size);
        } else {
            kept = kept + 1;
        }
        i = i + 1;
    }
    assert(are_sweep_turns(*hands, c, all, turns));
    Swept { freed, kept }
}

/// What is said after the directories were deleted.
pub open spec fn swept_text(freed: u64, kept: nat, on: bool) -> Seq<char> {
    painted(on, "32"@, "✓"@) + " freed "@ + size_text(freed as nat) + "\n"@ + (if kept > 0 {
        painted(on, "33"@, "  "@ + decimal(kept) + " paths kept (protected or in use)"@) + "\n"@
    } else {
        seq![]
    })
}

/// What is said after the directories were deleted.
pub fn swept_report(swept: &Swept, style: &Style) -> (r: String)
    ensures
        r@ == swept_text(swept.freed, swept.kept as nat, style.on),
{
    let mut out = style.green("✓");
    out.append(" freed ");
    out.append(fmt_size(swept.freed).as_str());
    out.append("\n");
    let more = if swept.kept > 0 {
        let mut said = "  ".to_string();
        said.append(decimal_of(swept.kept as u64).as_str());
        said.append(" paths kept (protected or in use)");
        let mut s = style.yellow(said.as_str());
        s.append("\n");
        s
    } else {
        nothing()
    };
    out.append(more.as_str());
    out
}

// ---------------------------------------------------------------------------
// Laws
// ---------------------------------------------------------------------------

/// No name is looked for twice, and the plain name is the first.
pub proof fn variants_are_distinct(name: Seq<char>)
    ensures
        variants_of(name).no_duplicates(),
        variants_of(name).len() > 0,
        variants_of(name)[0] == plain_name(name),
{
    let base = plain_name(name);
    let a = seq![base];
    let w = rejoined(base, seq![' ']);
    let x = rejoined(base, seq![]);
    let y = rejoined(base, seq!['-']);
    let z = rejoined(base, seq!['_']);
    assert(a.no_duplicates());
    lemma_with_new(a, w);
    lemma_with_new(with_new(a, w), x);
    lemma_with_new(with_new(with_new(a, w), x), y);
    lemma_with_new(with_new(with_new(with_new(a, w), x), y), z);
}

/// Blanks, hyphens and underscores are interchanged: the name is looked for with each of them between
/// its words, and with nothing.
pub proof fn joints_are_interchanged(name: Seq<char>)
    ensures
        variants_of(name).contains(plain_name(name)),
        variants_of(name).contains(rejoined(plain_name(name), seq![' '])),
        variants_of(name).contains(rejoined(plain_name(name), seq![])),
        variants_of(name).contains(rejoined(plain_name(name), seq!['-'])),
        variants_of(name).contains(rejoined(plain_name(name), seq!['_'])),
{
    let base = plain_name(name);
    let a = seq![base];
    let b = with_new(a, rejoined(base, seq![' ']));
    let c = with_new(b, rejoined(base, seq![]));
    let d = with_new(c, rejoined(base, seq!['-']));
    assert(a[0] == base);
    lemma_new_is_held(a, rejoined(base, seq![' ']), base);
    lemma_new_is_held(b, rejoined(base, seq![]), base);
    lemma_new_is_held(c, rejoined(base, seq!['-']), base);
    lemma_new_is_held(d, rejoined(base, seq!['_']), base);
    lemma_new_is_held(b, rejoined(base, seq![]), rejoined(base, seq![' ']));
    lemma_new_is_held(c, rejoined(base, seq!['-']), rejoined(base, seq![' ']));
    lemma_new_is_held(d, rejoined(base, seq!['_']), rejoined(base, seq![' ']));
    lemma_new_is_held(c, rejoined(base, seq!['-']), rejoined(base, seq![]));
    lemma_new_is_held(d, rejoined(base, seq!['_']), rejoined(base, seq![]));
    lemma_new_is_held(d, rejoined(base, seq!['_']), rejoined(base, seq!['-']));
}

proof fn lemma_new_is_held(list: Seq<Seq<char>>, x: Seq<char>, y: Seq<char>)
    ensures
        with_new(list, x).contains(x),
        list.contains(y) ==> with_new(list, x).contains(y),
{
    if !list.contains(x) {
        assert(list.push(x)[list.len() as int] == x);
        if list.contains(y) {
            let i = choose|i: int| 0 <= i < list.len() && list[i] == y;
            assert(list.push(x)[i] == y);
        }
    }
}

proof fn lemma_with_new(list: Seq<Seq<char>>, x: Seq<char>)
    requires
        list.no_duplicates(),
        list.len() > 0,
    ensures
        with_new(list, x).no_duplicates(),
        with_new(list, x).len() > 0,
        with_new(list, x)[0] == list[0],
{
    if !list.contains(x) {
        let t = list.push(x);
        assert forall|i: int, j: int| 0 <= i < t.len() && 0 <= j < t.len() && i != j implies t[i]
            != t[j] by {
            if i == list.len() {
                assert(list.contains(list[j]));
            } else if j == list.len() {
                assert(list.contains(list[i]));
            }
        }
    }
}

/// The path is that of a directory of the application: among the entries of a place, or among those of
/// a directory in it.
pub open spec fn leads_to_own(
    path: Seq<char>,
    items: Seq<FoundRow>,
    variants: Seq<Seq<char>>,
    dirs: Dirs,
) -> bool {
    ||| exists|i: int|
        0 <= i < items.len() && is_own(#[trigger] items[i], variants) && items[i].path == path
    ||| exists|i: int, j: int|
        0 <= i < items.len() && is_inside(#[trigger] items[i], dirs, j) && is_own(
            #[trigger] inside(items[i], dirs, j),
            variants,
        ) && inside(items[i], dirs, j).path == path
}

/// An entry of a directory.
pub open spec fn inside(item: FoundRow, dirs: Dirs, j: int) -> FoundRow {
    dirs(item.path)->Some_0[j]
}

/// The directory has an entry at the place.
pub open spec fn is_inside(item: FoundRow, dirs: Dirs, j: int) -> bool {
    dirs(item.path) is Some && 0 <= j < dirs(item.path)->Some_0.len()
}

proof fn lemma_own_in(items: Seq<FoundRow>, variants: Seq<Seq<char>>, w: PortableWorld, k: int) -> (i:
    int)
    requires
        0 <= k < own_in(items, variants, w).len(),
    ensures
        0 <= i < items.len(),
        is_own(items[i], variants),
        items[i].path == own_in(items, variants, w)[k].path,
    decreases items.len(),
{
    let front = own_in(items.drop_last(), variants, w);
    if k < front.len() {
        lemma_own_in(items.drop_last(), variants, w, k)
    } else {
        items.len() - 1
    }
}

/// Whatever is offered for deletion in one of the usual places is a directory of the application: one
/// whose name is a variant of its name, there or in the directory of its publisher.
pub proof fn leftovers_are_the_applications_own(
    items: Seq<FoundRow>,
    variants: Seq<Seq<char>>,
    publisher: Seq<char>,
    w: PortableWorld,
    k: int,
)
    requires
        0 <= k < leftovers_in(items, variants, publisher, w).len(),
    ensures
        leads_to_own(
            leftovers_in(items, variants, publisher, w)[k].path,
            items,
            variants,
            w.dirs,
        ),
    decreases items.len(),
{
    let front = leftovers_in(items.drop_last(), variants, publisher, w);
    let path = leftovers_in(items, variants, publisher, w)[k].path;
    if k < front.len() {
        let d = items.drop_last();
        leftovers_are_the_applications_own(d, variants, publisher, w, k);
        if exists|i: int| 0 <= i < d.len() && is_own(#[trigger] d[i], variants) && d[i].path == path {
            let i = choose|i: int|
                0 <= i < d.len() && is_own(#[trigger] d[i], variants) && d[i].path == path;
            assert(items[i] == d[i]);
        } else {
            let (i, j) = choose|i: int, j: int|
                0 <= i < d.len() && is_inside(#[trigger] d[i], w.dirs, j) && is_own(
                    #[trigger] inside(d[i], w.dirs, j),
                    variants,
                ) && inside(d[i], w.dirs, j).path == path;
            assert(items[i] == d[i]);
            assert(is_own(inside(items[i], w.dirs, j), variants));
        }
    } else {
        let item = items[items.len() - 1];
        if !is_own(item, variants) {
            let found = (w.dirs)(item.path)->Some_0;
            let j = lemma_own_in(found, variants, w, k - front.len());
            assert(inside(item, w.dirs, j) == found[j]);
            assert(is_inside(item, w.dirs, j));
        }
    }
}

/// The list holds that directory, with its size.
pub open spec fn offers(list: Seq<LeftoverRow>, path: Seq<char>, w: PortableWorld) -> bool {
    list.contains(LeftoverRow { path, size: (w.sizes)(path) })
}

/// The entry has, case aside, one of the names of the application.
pub open spec fn is_named_after(item: FoundRow, a: AppRow) -> bool {
    item.is_dir && exists|k: int|
        0 <= k < variants_of(a.name).len() && #[trigger] variants_of(a.name)[k] == folded(item.name)
}

proof fn lemma_offered_in(
    items: Seq<FoundRow>,
    variants: Seq<Seq<char>>,
    publisher: Seq<char>,
    w: PortableWorld,
    i: int,
    path: Seq<char>,
)
    requires
        0 <= i < items.len(),
        offers(leftovers_at(items[i], variants, publisher, w), path, w),
    ensures
        offers(leftovers_in(items, variants, publisher, w), path, w),
    decreases items.len(),
{
    let front = leftovers_in(items.drop_last(), variants, publisher, w);
    let more = leftovers_at(items.last(), variants, publisher, w);
    if i < items.len() - 1 {
        assert(items.drop_last()[i] == items[i]);
        lemma_offered_in(items.drop_last(), variants, publisher, w, i, path);
    }
    lemma_sum_offers(front, more, path, w);
}

proof fn lemma_sum_offers(a: Seq<LeftoverRow>, b: Seq<LeftoverRow>, path: Seq<char>, w: PortableWorld)
    ensures
        offers(a, path, w) || offers(b, path, w) ==> offers(a + b, path, w),
{
    let x = LeftoverRow { path, size: (w.sizes)(path) };
    if a.contains(x) {
        let i = choose|i: int| 0 <= i < a.len() && a[i] == x;
        assert((a + b)[i] == x);
    }
    if b.contains(x) {
        let i = choose|i: int| 0 <= i < b.len() && b[i] == x;
        assert((a + b)[a.len() + i] == x);
    }
}

proof fn lemma_offered_below(
    roots: Seq<Seq<char>>,
    variants: Seq<Seq<char>>,
    publisher: Seq<char>,
    w: PortableWorld,
    r: int,
    path: Seq<char>,
)
    requires
        0 <= r < roots.len(),
        (w.dirs)(roots[r]) is Some,
        offers(leftovers_in((w.dirs)(roots[r])->0, variants, publisher, w), path, w),
    ensures
        offers(leftovers_below(roots, variants, publisher, w), path, w),
    decreases roots.len(),
{
    let front = leftovers_below(roots.drop_last(), variants, publisher, w);
    if r < roots.len() - 1 {
        assert(roots.drop_last()[r] == roots[r]);
        lemma_offered_below(roots.drop_last(), variants, publisher, w, r, path);
    }
    if let Some(items) = (w.dirs)(roots.last()) {
        lemma_sum_offers(front, leftovers_in(items, variants, publisher, w), path, w);
    }
}

proof fn lemma_offered_of(
    a: AppRow,
    roots: Seq<Seq<char>>,
    installed_there: bool,
    w: PortableWorld,
    path: Seq<char>,
)
    requires
        offers(
            leftovers_below(roots, variants_of(a.name), folded(trimmed(a.publisher)), w),
            path,
            w,
        ),
    ensures
        offers(leftovers_of(a, roots, installed_there, w), path, w),
{
    let below = leftovers_below(roots, variants_of(a.name), folded(trimmed(a.publisher)), w);
    let x = LeftoverRow { path, size: (w.sizes)(path) };
    let i = choose|i: int| 0 <= i < below.len() && below[i] == x;
    assert(leftovers_of(a, roots, installed_there, w)[i] == x);
}

/// Every place is searched: each directory with a name of the application, in each of the roots that can
/// be read, is found, with its size, whatever the other roots and the other entries hold.
pub proof fn every_own_directory_is_found(
    a: AppRow,
    roots: Seq<Seq<char>>,
    installed_there: bool,
    w: PortableWorld,
    r: int,
    i: int,
)
    requires
        0 <= r < roots.len(),
        (w.dirs)(roots[r]) is Some,
        0 <= i < (w.dirs)(roots[r])->0.len(),
        is_named_after((w.dirs)(roots[r])->0[i], a),
    ensures
        offers(leftovers_of(a, roots, installed_there, w), (w.dirs)(roots[r])->0[i].path, w),
{
    let items = (w.dirs)(roots[r])->0;
    let variants = variants_of(a.name);
    let publisher = folded(trimmed(a.publisher));
    let k = choose|k: int| 0 <= k < variants.len() && #[trigger] variants[k] == folded(items[i].name);
    assert(is_own(items[i], variants));
    let at = leftovers_at(items[i], variants, publisher, w);
    assert(at[0].path == items[i].path);
    assert(at.contains(at[0]));
    lemma_offered_in(items, variants, publisher, w, i, items[i].path);
    lemma_offered_below(roots, variants, publisher, w, r, items[i].path);
    lemma_offered_of(a, roots, installed_there, w, items[i].path);
}

/// The directory of the publisher is searched as well: each directory with a name of the application in
/// it is found, in each of the roots, unless the publisher's directory is itself one of the
/// application's.
pub proof fn own_directories_of_the_publisher_are_found(
    a: AppRow,
    roots: Seq<Seq<char>>,
    installed_there: bool,
    w: PortableWorld,
    r: int,
    i: int,
    j: int,
)
    requires
        0 <= r < roots.len(),
        (w.dirs)(roots[r]) is Some,
        0 <= i < (w.dirs)(roots[r])->0.len(),
        ({
            let dir = (w.dirs)(roots[r])->0[i];
            &&& dir.is_dir
            &&& folded(dir.name).len() > 0
            &&& folded(dir.name) == folded(trimmed(a.publisher))
            &&& !is_named_after(dir, a)
            &&& (w.dirs)(dir.path) is Some
            &&& 0 <= j < (w.dirs)(dir.path)->0.len()
            &&& is_named_after((w.dirs)(dir.path)->0[j], a)
        }),
    ensures
        offers(
            leftovers_of(a, roots, installed_there, w),
            (w.dirs)((w.dirs)(roots[r])->0[i].path)->0[j].path,
            w,
        ),
{
    let items = (w.dirs)(roots[r])->0;
    let variants = variants_of(a.name);
    let publisher = folded(trimmed(a.publisher));
    let dir = items[i];
    let sub = (w.dirs)(dir.path)->0;
    assert(!is_own(dir, variants)) by {
        if variants.contains(folded(dir.name)) {
            let k = choose|k: int| 0 <= k < variants.len() && variants[k] == folded(dir.name);
            assert(variants_of(a.name)[k] == folded(dir.name));
        }
    }
    let k = choose|k: int| 0 <= k < variants.len() && #[trigger] variants[k] == folded(sub[j].name);
    assert(is_own(sub[j], variants));
    lemma_own_is_held(sub, variants, w, j);
    lemma_offered_in(items, variants, publisher, w, i, sub[j].path);
    lemma_offered_below(roots, variants, publisher, w, r, sub[j].path);
    lemma_offered_of(a, roots, installed_there, w, sub[j].path);
}

proof fn lemma_own_is_held(
    items: Seq<FoundRow>,
    variants: Seq<Seq<char>>,
    w: PortableWorld,
    j: int,
)
    requires
        0 <= j < items.len(),
        is_own(items[j], variants),
    ensures
        offers(own_in(items, variants, w), items[j].path, w),
    decreases items.len(),
{
    let front = own_in(items.drop_last(), variants, w);
    let x = LeftoverRow { path: items[j].path, size: (w.sizes)(items[j].path) };
    if j < items.len() - 1 {
        assert(items.drop_last()[j] == items[j]);
        lemma_own_is_held(items.drop_last(), variants, w, j);
        let k = choose|k: int| 0 <= k < front.len() && front[k] == x;
        assert(own_in(items, variants, w)[k] == x);
    } else {
        assert(own_in(items, variants, w)[front.len() as int] == x);
    }
}

/// The directory that an application was installed in is found where it is still there; that of a
/// portable application, which is the application itself, is not.
pub proof fn the_install_directory_is_found(
    a: AppRow,
    roots: Seq<Seq<char>>,
    w: PortableWorld,
)
    requires
        a.location.len() > 0,
    ensures
        a.source != Source::Portable ==> leftovers_of(a, roots, true, w) == leftovers_of(
            a,
            roots,
            false,
            w,
        ).push(LeftoverRow { path: a.location, size: (w.sizes)(a.location) }),
        a.source == Source::Portable ==> leftovers_of(a, roots, true, w) == leftovers_of(
            a,
            roots,
            false,
            w,
        ),
{
}

/// Roots are searched one by one and in order: what two lists of roots give together is what the one
/// gives, and behind it what the other gives.
pub proof fn roots_are_searched_one_by_one(
    front: Seq<Seq<char>>,
    back: Seq<Seq<char>>,
    variants: Seq<Seq<char>>,
    publisher: Seq<char>,
    w: PortableWorld,
)
    ensures
        leftovers_below(front + back, variants, publisher, w) == leftovers_below(
            front,
            variants,
            publisher,
            w,
        ) + leftovers_below(back, variants, publisher, w),
    decreases back.len(),
{
    let f = leftovers_below(front, variants, publisher, w);
    if back.len() > 0 {
        roots_are_searched_one_by_one(front, back.drop_last(), variants, publisher, w);
        assert((front + back).drop_last() =~= front + back.drop_last());
        let b = leftovers_below(back.drop_last(), variants, publisher, w);
        if let Some(items) = (w.dirs)(back.last()) {
            assert(f + b + leftovers_in(items, variants, publisher, w) =~= f + (b + leftovers_in(
                items,
                variants,
                publisher,
                w,
            )));
        }
    } else {
        assert(front + back =~= front);
        assert(f + leftovers_below(back, variants, publisher, w) =~= f);
    }
}

/// Nothing but the application's own is found: each path is the directory it was installed in, or a
/// directory with one of its names, in a root or in a directory of a root that is named like its
/// publisher; and its size is that of the directory.
pub proof fn nothing_else_is_found(
    a: AppRow,
    roots: Seq<Seq<char>>,
    installed_there: bool,
    w: PortableWorld,
    k: int,
)
    requires
        0 <= k < leftovers_of(a, roots, installed_there, w).len(),
    ensures
        ({
            let l = leftovers_of(a, roots, installed_there, w)[k];
            &&& l.size == (w.sizes)(l.path)
            &&& {
                ||| l.path == a.location && installed_there && a.source != Source::Portable
                ||| exists|r: int, i: int|
                    0 <= r < roots.len() && #[trigger] is_entry(w, roots[r], i) && is_named_after(
                        #[trigger] entry_at(w, roots[r], i),
                        a,
                    ) && entry_at(w, roots[r], i).path == l.path
                ||| exists|r: int, i: int, j: int|
                    0 <= r < roots.len() && is_entry(w, roots[r], i) && folded(
                        entry_at(w, roots[r], i).name,
                    ) == folded(trimmed(a.publisher)) && #[trigger] is_entry(
                        w,
                        entry_at(w, roots[r], i).path,
                        j,
                    ) && is_named_after(entry_at(w, entry_at(w, roots[r], i).path, j), a)
                        && entry_at(w, entry_at(w, roots[r], i).path, j).path == l.path
            }
        }),
{
    let variants = variants_of(a.name);
    let publisher = folded(trimmed(a.publisher));
    let below = leftovers_below(roots, variants, publisher, w);
    let l = leftovers_of(a, roots, installed_there, w)[k];
    if k < below.len() {
        let (r, i) = lemma_where_below(roots, variants, publisher, w, k);
        let item = entry_at(w, roots[r], i);
        assert(is_entry(w, roots[r], i));
        let at = leftovers_at(item, variants, publisher, w);
        let m = choose|m: int| 0 <= m < at.len() && at[m] == l;
        if is_own(item, variants) {
            lemma_named(item, a);
            assert(is_named_after(entry_at(w, roots[r], i), a));
        } else {
            let sub = (w.dirs)(item.path)->0;
            let j = lemma_own_in(sub, variants, w, m);
            lemma_own_sizes(sub, variants, w, m);
            assert(is_entry(w, item.path, j));
            assert(entry_at(w, item.path, j) == sub[j]);
            lemma_named(sub[j], a);
        }
    }
}

proof fn lemma_named(item: FoundRow, a: AppRow)
    requires
        is_own(item, variants_of(a.name)),
    ensures
        is_named_after(item, a),
{
    let v = variants_of(a.name);
    let k = choose|k: int| 0 <= k < v.len() && v[k] == folded(item.name);
    assert(variants_of(a.name)[k] == folded(item.name));
}

/// The directory can be read and has an entry at the place.
pub open spec fn is_entry(w: PortableWorld, dir: Seq<char>, i: int) -> bool {
    (w.dirs)(dir) is Some && 0 <= i < (w.dirs)(dir)->0.len()
}

/// The entry of a directory.
pub open spec fn entry_at(w: PortableWorld, dir: Seq<char>, i: int) -> FoundRow {
    (w.dirs)(dir)->0[i]
}

proof fn lemma_own_sizes(items: Seq<FoundRow>, variants: Seq<Seq<char>>, w: PortableWorld, k: int)
    requires
        0 <= k < own_in(items, variants, w).len(),
    ensures
        own_in(items, variants, w)[k].size == (w.sizes)(own_in(items, variants, w)[k].path),
    decreases items.len(),
{
    let front = own_in(items.drop_last(), variants, w);
    if k < front.len() {
        lemma_own_sizes(items.drop_last(), variants, w, k);
    }
}

proof fn lemma_where_in(
    items: Seq<FoundRow>,
    variants: Seq<Seq<char>>,
    publisher: Seq<char>,
    w: PortableWorld,
    k: int,
) -> (i: int)
    requires
        0 <= k < leftovers_in(items, variants, publisher, w).len(),
    ensures
        0 <= i < items.len(),
        leftovers_at(items[i], variants, publisher, w).contains(
            leftovers_in(items, variants, publisher, w)[k],
        ),
    decreases items.len(),
{
    let front = leftovers_in(items.drop_last(), variants, publisher, w);
    if k < front.len() {
        let i = lemma_where_in(items.drop_last(), variants, publisher, w, k);
        assert(items.drop_last()[i] == items[i]);
        i
    } else {
        let at = leftovers_at(items.last(), variants, publisher, w);
        assert(at[k - front.len()] == leftovers_in(items, variants, publisher, w)[k]);
        items.len() - 1
    }
}

proof fn lemma_where_below(
    roots: Seq<Seq<char>>,
    variants: Seq<Seq<char>>,
    publisher: Seq<char>,
    w: PortableWorld,
    k: int,
) -> (p: (int, int))
    requires
        0 <= k < leftovers_below(roots, variants, publisher, w).len(),
    ensures
        0 <= p.0 < roots.len(),
        is_entry(w, roots[p.0], p.1),
        leftovers_at(entry_at(w, roots[p.0], p.1), variants, publisher, w).contains(
            leftovers_below(roots, variants, publisher, w)[k],
        ),
    decreases roots.len(),
{
    let front = leftovers_below(roots.drop_last(), variants, publisher, w);
    if k < front.len() {
        let p = lemma_where_below(roots.drop_last(), variants, publisher, w, k);
        assert(roots.drop_last()[p.0] == roots[p.0]);
        p
    } else {
        let items = (w.dirs)(roots.last())->0;
        let i = lemma_where_in(items, variants, publisher, w, k - front.len());
        (roots.len() - 1, i)
    }
}

/// A word of a name: ASCII characters without white space and brackets, not all of them digits and dots.
pub open spec fn is_name_word(w: Seq<char>) -> bool {
    &&& all_ascii(w)
    &&& forall|i: int|
        0 <= i < w.len() ==> !is_space(#[trigger] w[i]) && w[i] != '(' && w[i] != '['
    &&& exists|i: int| 0 <= i < w.len() && !('0' <= #[trigger] w[i] <= '9') && w[i] != '.'
}

/// What an installer puts behind a name: nothing, or a blank or bracket, a version, and whatever follows.
pub open spec fn is_version_noise(noise: Seq<char>, version: Seq<char>, rest: Seq<char>) -> bool {
    ||| noise.len() == 0
    ||| {
        &&& version.len() > 0
        &&& forall|i: int|
            0 <= i < version.len() ==> '0' <= #[trigger] version[i] <= '9' || version[i] == '.'
        &&& noise[0] == ' ' || noise[0] == '(' || noise[0] == '['
        &&& noise == seq![noise[0]] + version + rest
        &&& rest.len() > 0 ==> rest[0] == ' ' || rest[0] == '(' || rest[0] == '['
        &&& all_ascii(rest)
        &&& !is_space(noise.last())
    }
}

/// The words in lower case.
pub open spec fn lowered(words: Seq<Seq<char>>) -> Seq<Seq<char>> {
    words.map_values(|w: Seq<char>| ascii_lower(w))
}

proof fn lemma_lowered_join(words: Seq<Seq<char>>, joint: Seq<char>)
    requires
        ascii_lower(joint) == joint,
    ensures
        ascii_lower(joined(words, joint)) == joined(lowered(words), joint),
    decreases words.len(),
{
    if words.len() == 1 {
        assert(lowered(words)[0] == ascii_lower(words[0]));
    } else if words.len() > 1 {
        let front = words.drop_last();
        lemma_lowered_join(front, joint);
        assert(lowered(words).drop_last() =~= lowered(front));
        assert(lowered(words).last() == ascii_lower(words.last()));
        assert(ascii_lower(joined(words, joint)) =~= ascii_lower(joined(front, joint))
            + ascii_lower(joint) + ascii_lower(words.last()));
    } else {
        assert(ascii_lower(joined(words, joint)) =~= joined(lowered(words), joint));
    }
}

/// Every character of the word may stand in a word.
spec fn inner(w: Seq<char>) -> bool {
    w.len() > 0 && all_ascii(w) && forall|i: int|
        0 <= i < w.len() ==> !is_space(#[trigger] w[i]) && w[i] != '(' && w[i] != '['
}

proof fn lemma_joined_words(words: Seq<Seq<char>>)
    requires
        words.len() > 0,
        forall|i: int| 0 <= i < words.len() ==> inner(#[trigger] words[i]),
    ensures
        joined(words, seq![' ']).len() > 0,
        !is_space(joined(words, seq![' '])[0]),
        !is_space(joined(words, seq![' ']).last()),
        all_ascii(joined(words, seq![' '])),
        split_by(joined(words, seq![' ']), parts_words()) == words,
    decreases words.len(),
{
    let sep = parts_words();
    let last = words.last();
    assert(inner(words[words.len() - 1]));
    assert forall|i: int| 0 <= i < last.len() implies !sep(#[trigger] last[i]) by {
        assert(!is_space(last[i]));
    }
    crate::text::what_has_no_separator_is_one_piece(last, sep);
    if words.len() == 1 {
        assert(joined(words, seq![' ']) == last);
        assert(!is_space(last[0]) && !is_space(last[last.len() - 1]));
        assert(seq![last] =~= words);
    } else {
        let front = words.drop_last();
        assert forall|i: int| 0 <= i < front.len() implies inner(#[trigger] front[i]) by {
            assert(front[i] == words[i]);
        }
        lemma_joined_words(front);
        let f = joined(front, seq![' ']);
        let all = joined(words, seq![' ']);
        assert(all == f + seq![' '] + last);
        assert(all.last() == last[last.len() - 1]);
        crate::text::separators_part(f, last, ' ', sep);
        assert(front + seq![last] =~= words);
    }
}

proof fn lemma_all_kept(v: Seq<Seq<char>>)
    requires
        forall|i: int| 0 <= i < v.len() ==> (#[trigger] v[i]).len() > 0,
    ensures
        nonempty(v) == v,
    decreases v.len(),
{
    reveal(Seq::filter);
    if v.len() > 0 {
        let front = v.drop_last();
        assert forall|i: int| 0 <= i < front.len() implies (#[trigger] front[i]).len() > 0 by {
            assert(front[i] == v[i]);
        }
        lemma_all_kept(front);
        assert(v[v.len() - 1].len() > 0);
        assert(front.push(v.last()) =~= v);
    }
}

proof fn lemma_kept_apart(a: Seq<Seq<char>>, b: Seq<Seq<char>>)
    ensures
        nonempty(a + b) == nonempty(a) + nonempty(b),
    decreases b.len(),
{
    reveal(Seq::filter);
    if b.len() > 0 {
        lemma_kept_apart(a, b.drop_last());
        assert((a + b).drop_last() =~= a + b.drop_last());
        assert(nonempty(a + b) =~= nonempty(a) + nonempty(b));
    } else {
        assert(a + b =~= a);
        assert(nonempty(a) + nonempty(b) =~= nonempty(a));
    }
}

proof fn lemma_up_to_version(words: Seq<Seq<char>>, behind: Seq<Seq<char>>)
    requires
        forall|i: int| 0 <= i < words.len() ==> !is_version_word(#[trigger] words[i]),
        behind.len() > 0 ==> is_version_word(behind[0]),
    ensures
        before_version(words + behind) == words,
    decreases words.len(),
{
    let all = words + behind;
    if words.len() > 0 {
        assert(!is_version_word(words[0]));
        let rest = words.drop_first();
        assert forall|i: int| 0 <= i < rest.len() implies !is_version_word(#[trigger] rest[i]) by {
            assert(rest[i] == words[i + 1]);
        }
        lemma_up_to_version(rest, behind);
        assert(all.drop_first() =~= rest + behind);
        assert(seq![words[0]] + rest =~= words);
    } else {
        assert(all =~= behind);
        assert(before_version(all) =~= words);
    }
}

/// The plain name of an application is its words in lower case, with a blank between them; a version and
/// what follows it are left out.
#[verifier::rlimit(60)]
pub proof fn plain_names_leave_the_version_out(
    words: Seq<Seq<char>>,
    noise: Seq<char>,
    version: Seq<char>,
    rest: Seq<char>,
)
    requires
        words.len() > 0,
        forall|i: int| 0 <= i < words.len() ==> is_name_word(#[trigger] words[i]),
        is_version_noise(noise, version, rest),
    ensures
        plain_name(joined(words, seq![' ']) + noise) == joined(lowered(words), seq![' ']),
{
    let sep = parts_words();
    let lows = lowered(words);
    let name = joined(words, seq![' ']) + noise;
    assert(ascii_lower(seq![' ']) =~= seq![' ']);
    lemma_lowered_join(words, seq![' ']);
    assert forall|i: int| 0 <= i < words.len() implies inner(#[trigger] words[i]) by {
        assert(is_name_word(words[i]));
    }
    assert forall|i: int| 0 <= i < lows.len() implies inner(#[trigger] lows[i]) && !is_version_word(
        lows[i],
    ) by {
        let w = words[i];
        assert(is_name_word(w));
        assert(lows[i] == ascii_lower(w));
        assert forall|k: int| 0 <= k < lows[i].len() implies !is_space(#[trigger] lows[i][k])
            && lows[i][k] != '(' && lows[i][k] != '[' && lows[i][k] < '\u{80}' by {
            assert(!is_space(w[k]));
            assert(w[k] < '\u{80}');
        }
        let k = choose|k: int| 0 <= k < w.len() && !('0' <= #[trigger] w[k] <= '9') && w[k] != '.';
        assert(!is_digit(lows[i][k]) && lows[i][k] != '.');
    }
    lemma_joined_words(words);
    lemma_joined_words(lows);
    let plain = joined(lows, seq![' ']);
    assert(all_ascii(noise)) by {
        if noise.len() > 0 {
            assert forall|i: int| 0 <= i < noise.len() implies #[trigger] noise[i] < '\u{80}' by {
                if i > 0 && i < 1 + version.len() {
                    assert(noise[i] == version[i - 1]);
                } else if i > 0 {
                    assert(noise[i] == rest[i - 1 - version.len()]);
                }
            }
        }
    }
    assert(all_ascii(name)) by {
        let f = joined(words, seq![' ']);
        assert forall|i: int| 0 <= i < name.len() implies #[trigger] name[i] < '\u{80}' by {
            if i < f.len() {
                assert(name[i] == f[i]);
            } else {
                assert(name[i] == noise[i - f.len()]);
            }
        }
    }
    assert(!is_space(name[0])) by {
        assert(name[0] == joined(words, seq![' '])[0]);
    }
    assert(!is_space(name.last())) by {
        if noise.len() > 0 {
            assert(name.last() == noise.last());
        } else {
            assert(name =~= joined(words, seq![' ']));
        }
    }
    crate::text::lemma_nothing_to_trim(name);
    let base = folded(name);
    assert(base =~= plain + ascii_lower(noise));
    let pieces = split_by(base, sep);
    lemma_all_kept(lows);
    if noise.len() == 0 {
        assert(base =~= plain);
        assert(lows + Seq::<Seq<char>>::empty() =~= lows);
        lemma_up_to_version(lows, seq![]);
    } else {
        let behind = version + ascii_lower(rest);
        assert(ascii_lower(version) =~= version);
        assert(ascii_lower(noise) =~= seq![noise[0]] + behind);
        assert(base =~= plain + seq![noise[0]] + behind);
        crate::text::separators_part(plain, behind, noise[0], sep);
        let more = split_by(behind, sep);
        lemma_kept_apart(lows, more);
        assert forall|i: int| 0 <= i < version.len() implies !sep(#[trigger] version[i]) by {}
        crate::text::what_has_no_separator_is_one_piece(version, sep);
        if rest.len() == 0 {
            assert(behind =~= version);
            lemma_all_kept(more);
        } else {
            let low = ascii_lower(rest);
            assert(behind =~= version + seq![rest[0]] + low.skip(1));
            crate::text::separators_part(version, low.skip(1), rest[0], sep);
            assert(more == seq![version] + split_by(low.skip(1), sep));
            lemma_all_kept(seq![version]);
            lemma_kept_apart(seq![version], split_by(low.skip(1), sep));
        }
        assert(nonempty(more)[0] == version);
        assert(is_version_word(version));
        lemma_up_to_version(lows, nonempty(more));
    }
    assert(before_version(nonempty(pieces)) == lows);
    reveal_strlit(" ");
    assert(" "@ =~= seq![' ']);
    crate::text::lemma_nothing_to_trim(plain);
}

/// The words of a name, with the joint between them, come from the name with blanks between them.
proof fn lemma_rejoined(words: Seq<Seq<char>>, joint: Seq<char>)
    requires
        words.len() > 0,
        forall|i: int, k: int|
            0 <= i < words.len() && 0 <= k < words[i].len() ==> !is_joint(#[trigger] words[i][k]),
    ensures
        rejoined(joined(words, seq![' ']), joint) == joined(words, joint),
    decreases words.len(),
{
    let last = words.last();
    assert forall|k: int| 0 <= k < last.len() implies !is_joint(#[trigger] last[k]) by {
        assert(last[k] == words[words.len() - 1][k]);
    }
    lemma_rejoin_plain(last, joint);
    if words.len() > 1 {
        let front = words.drop_last();
        assert forall|i: int, k: int|
            0 <= i < front.len() && 0 <= k < front[i].len() implies !is_joint(
            #[trigger] front[i][k],
        ) by {
            assert(front[i][k] == words[i][k]);
        }
        lemma_rejoined(front, joint);
        let f = joined(front, seq![' ']);
        lemma_rejoin_sum(f, seq![' '], joint);
        lemma_rejoin_sum(f + seq![' '], last, joint);
        let blank = seq![' '];
        assert(blank.drop_last() =~= Seq::<char>::empty());
        assert(rejoined(blank.drop_last(), joint) =~= Seq::<char>::empty());
        assert(is_joint(' '));
        assert(rejoined(blank, joint) =~= joint);
    }
}

proof fn lemma_rejoin_plain(s: Seq<char>, joint: Seq<char>)
    requires
        forall|k: int| 0 <= k < s.len() ==> !is_joint(#[trigger] s[k]),
    ensures
        rejoined(s, joint) == s,
    decreases s.len(),
{
    if s.len() > 0 {
        let front = s.drop_last();
        assert forall|k: int| 0 <= k < front.len() implies !is_joint(#[trigger] front[k]) by {
            assert(front[k] == s[k]);
        }
        lemma_rejoin_plain(front, joint);
        assert(!is_joint(s[s.len() - 1]));
        assert(front + seq![s.last()] =~= s);
    } else {
        assert(rejoined(s, joint) =~= s);
    }
}

proof fn lemma_rejoin_sum(a: Seq<char>, b: Seq<char>, joint: Seq<char>)
    ensures
        rejoined(a + b, joint) == rejoined(a, joint) + rejoined(b, joint),
    decreases b.len(),
{
    if b.len() > 0 {
        lemma_rejoin_sum(a, b.drop_last(), joint);
        assert((a + b).drop_last() =~= a + b.drop_last());
        assert(rejoined(a + b, joint) =~= rejoined(a, joint) + rejoined(b, joint));
    } else {
        assert(a + b =~= a);
        assert(rejoined(a, joint) + rejoined(b, joint) =~= rejoined(a, joint));
    }
}

/// An application is looked for under its words in lower case, joined by blanks, hyphens, underscores or
/// nothing, and under no other name, whatever version stands behind them.
pub proof fn names_are_looked_for_with_every_joint(
    words: Seq<Seq<char>>,
    noise: Seq<char>,
    version: Seq<char>,
    rest: Seq<char>,
    v: Seq<char>,
)
    requires
        words.len() > 0,
        forall|i: int| 0 <= i < words.len() ==> is_name_word(#[trigger] words[i]),
        forall|i: int, k: int|
            0 <= i < words.len() && 0 <= k < words[i].len() ==> #[trigger] words[i][k] != '-'
                && words[i][k] != '_',
        is_version_noise(noise, version, rest),
    ensures
        variants_of(joined(words, seq![' ']) + noise).contains(v) <==> {
            ||| v == joined(lowered(words), seq![' '])
            ||| v == joined(lowered(words), seq!['-'])
            ||| v == joined(lowered(words), seq!['_'])
            ||| v == joined(lowered(words), seq![])
        },
{
    let name = joined(words, seq![' ']) + noise;
    let lows = lowered(words);
    plain_names_leave_the_version_out(words, noise, version, rest);
    let base = plain_name(name);
    assert forall|i: int, k: int| 0 <= i < lows.len() && 0 <= k < lows[i].len() implies !is_joint(
        #[trigger] lows[i][k],
    ) by {
        assert(is_name_word(words[i]));
        assert(lows[i] == ascii_lower(words[i]));
        assert(words[i][k] != '-');
        assert(!is_space(words[i][k]));
    }
    lemma_rejoined(lows, seq![' ']);
    lemma_rejoined(lows, seq![]);
    lemma_rejoined(lows, seq!['-']);
    lemma_rejoined(lows, seq!['_']);
    joints_are_interchanged(name);
    let a = with_new(seq![base], rejoined(base, seq![' ']));
    let b = with_new(a, rejoined(base, seq![]));
    let c = with_new(b, rejoined(base, seq!['-']));
    assert(seq![base].contains(v) ==> v == base);
}

/// What is left behind is looked for where applications keep their data: in what `APPDATA`,
/// `LOCALAPPDATA` and `PROGRAMDATA` hold, in `Programs` of the user's local data, and nowhere else.
pub proof fn data_places_are_searched(roots: Seq<Seq<char>>, env: Env)
    requires
        are_leftover_roots(roots, env),
    ensures
        forall|name: Seq<char>|
            name == "APPDATA"@ || name == "LOCALAPPDATA"@ || name == "PROGRAMDATA"@ ==> (
            #[trigger] env(name) matches Some(v) ==> roots.contains(v)),
        env("LOCALAPPDATA"@) matches Some(local) ==> exists|i: int|
            0 <= i < roots.len() && is_path_of(#[trigger] roots[i], seq![local, "Programs"@]),
        forall|i: int|
            0 <= i < roots.len() ==> {
                ||| env("APPDATA"@) == Some(#[trigger] roots[i])
                ||| env("LOCALAPPDATA"@) == Some(roots[i])
                ||| env("PROGRAMDATA"@) == Some(roots[i])
                ||| env("LOCALAPPDATA"@) is Some && is_path_of(
                    roots[i],
                    seq![env("LOCALAPPDATA"@)->0, "Programs"@],
                )
            },
{
    let front = leftover_places(env);
    let a = with_var(seq![], "APPDATA"@, env);
    let b = with_var(a, "LOCALAPPDATA"@, env);
    crate::safety::lemma_with_var(seq![], "APPDATA"@, env);
    crate::safety::lemma_with_var(a, "LOCALAPPDATA"@, env);
    crate::safety::lemma_with_var(b, "PROGRAMDATA"@, env);
    assert forall|name: Seq<char>|
        name == "APPDATA"@ || name == "LOCALAPPDATA"@ || name == "PROGRAMDATA"@ implies (
    #[trigger] env(name) matches Some(v) ==> roots.contains(v)) by {
        if let Some(v) = env(name) {
            assert(front.contains(v));
            let i = choose|i: int| 0 <= i < front.len() && front[i] == v;
            if env("LOCALAPPDATA"@) is Some {
                assert(roots.drop_last()[i] == v);
            }
            assert(roots[i] == v);
        }
    }
    if let Some(local) = env("LOCALAPPDATA"@) {
        assert(is_path_of(roots[roots.len() - 1], seq![local, "Programs"@]));
    }
    assert forall|i: int| 0 <= i < roots.len() implies {
        ||| env("APPDATA"@) == Some(#[trigger] roots[i])
        ||| env("LOCALAPPDATA"@) == Some(roots[i])
        ||| env("PROGRAMDATA"@) == Some(roots[i])
        ||| env("LOCALAPPDATA"@) is Some && is_path_of(
            roots[i],
            seq![env("LOCALAPPDATA"@)->0, "Programs"@],
        )
    } by {
        let t = roots[i];
        assert(!Seq::<Seq<char>>::empty().contains(t));
        if env("LOCALAPPDATA"@) is Some {
            if i < roots.len() - 1 {
                assert(roots.drop_last()[i] == t);
                assert(front.contains(t));
            }
        } else {
            assert(front.contains(t));
        }
    }
}

/// A Windows Installer entry always becomes the same command, whatever else it says, as long as its
/// product code is the first thing in braces.
pub proof fn installer_commands_are_uniform(s: Seq<char>)
    requires
        product_code(trimmed(s)) is Some,
    ensures
        command_for(s) == Some(
            seq!["msiexec"@, "/x"@, product_code(trimmed(s))->Some_0, "/qb"@],
        ),
{
    let t = trimmed(s);
    if t.len() == 0 {
        crate::text::lemma_run_len_props(t, crate::text::other_than('{'));
    }
}

/// Only a portable application is deleted; everything else is left to Steam or to its vendor.
pub proof fn only_portables_are_deleted(a: AppRow)
    ensures
        step_for(a) is Delete <==> a.source == Source::Portable,
{
}

/// The name of the installer's program stands in the text, case aside.
pub open spec fn names_msiexec(front: Seq<char>, word: Seq<char>, back: Seq<char>) -> bool {
    all_ascii(front) && all_ascii(word) && all_ascii(back) && ascii_lower(word) == "msiexec"@
}

/// A product code: braces round 36 hexadecimal digits and hyphens.
pub open spec fn is_product_code(s: Seq<char>) -> bool {
    &&& s.len() == 38
    &&& s[0] == '{'
    &&& s[37] == '}'
    &&& forall|i: int|
        1 <= i < 37 ==> '0' <= #[trigger] s[i] <= '9' || 'a' <= s[i] <= 'f' || 'A' <= s[i] <= 'F'
            || s[i] == '-'
}

/// However an entry of the Windows Installer is spelled, its product is removed, and shown while it is:
/// the command is `msiexec /x`, the product code that stands in it, and `/qb`.
pub proof fn installer_products_are_removed_by_their_code(
    a: Seq<char>,
    word: Seq<char>,
    b: Seq<char>,
    code: Seq<char>,
    c: Seq<char>,
)
    requires
        names_msiexec(a, word, b + code + c),
        is_product_code(code),
        !a.contains('{'),
        !b.contains('{'),
        ({
            let s = a + word + b + code + c;
            !is_space(s[0]) && !is_space(s.last())
        }),
    ensures
        command_for(a + word + b + code + c) == Some(
            seq!["msiexec"@, "/x"@, code, "/qb"@],
        ),
{
    let s = a + word + b + code + c;
    crate::text::lemma_nothing_to_trim(s);
    reveal_strlit("msiexec");
    assert(all_ascii("msiexec"@));
    assert(folded("msiexec"@) =~= "msiexec"@);
    crate::text::parts_are_found_in_any_case(a, word, b + code + c, "msiexec"@);
    assert(s =~= a + word + (b + code + c));
    let n = (a.len() + word.len() + b.len()) as int;
    assert forall|j: int| 0 <= j < n implies crate::text::other_than('{')(#[trigger] s[j]) by {
        if j < a.len() {
            assert(a.contains(a[j]));
        } else if j < a.len() + word.len() {
            let k = j - a.len();
            assert(ascii_lower(word)[k] == crate::text::ascii_lower_char(word[k]));
            assert(ascii_lower(word)[k] == "msiexec"@[k]);
        } else {
            assert(s[j] == b[j - a.len() - word.len()]);
            assert(b.contains(b[j - a.len() - word.len()]));
        }
    }
    assert(s[n] == code[0]);
    crate::text::lemma_run_len(s, crate::text::other_than('{'), n);
    let rest = s.skip(n);
    assert forall|j: int| 0 <= j < 37 implies crate::text::other_than('}')(#[trigger] rest[j]) by {
        assert(rest[j] == code[j]);
    }
    assert(rest[37] == code[37]);
    crate::text::lemma_run_len(rest, crate::text::other_than('}'), 37);
    assert(rest.take(38) =~= code);
    let inner = code.subrange(1, 37);
    assert forall|i: int| 0 <= i < inner.len() implies is_hex(#[trigger] inner[i]) || inner[i] == '-' by {
        assert(inner[i] == code[i + 1]);
    }
}

/// A quoted program is run as it is quoted, blanks and all, with the words behind it as its arguments.
pub proof fn quoted_programs_are_run(program: Seq<char>, rest: Seq<char>)
    requires
        !program.contains('"'),
        rest.len() > 0 ==> !is_space(rest.last()),
    ensures
        split_command(seq!['"'] + program + seq!['"'] + rest) == Some(
            seq![program] + words_of(rest),
        ),
{
    let s = seq!['"'] + program + seq!['"'] + rest;
    assert(!is_space('"'));
    crate::text::lemma_nothing_to_trim(s);
    reveal_strlit("\"");
    assert(s.subrange(0, 1) =~= "\""@);
    let after = s.skip(1);
    assert forall|j: int| 0 <= j < program.len() implies crate::text::other_than('"')(
        #[trigger] after[j],
    ) by {
        assert(program.contains(program[j]));
    }
    crate::text::lemma_run_len(after, crate::text::other_than('"'), program.len() as int);
    assert(after.take(program.len() as int) =~= program);
    assert(after.skip(program.len() as int + 1) =~= rest);
}

/// An unquoted program ends behind its first `.exe`, case aside, since its path may hold blanks; the words
/// behind it are its arguments.
pub proof fn unquoted_programs_end_in_exe(path: Seq<char>, ext: Seq<char>, rest: Seq<char>)
    requires
        ascii_lower(ext) == ".exe"@,
        path.len() > 0,
        path[0] != '"',
        !is_space(path[0]),
        rest.len() > 0 ==> !is_space(rest.last()),
        forall|i: int|
            0 <= i < path.len() ==> #[trigger] ascii_lower(path + ext + rest).subrange(i, i + 4)
                != ".exe"@,
    ensures
        split_command(path + ext + rest) == Some(seq![path + ext] + words_of(rest)),
{
    let s = path + ext + rest;
    reveal_strlit(".exe");
    assert(ascii_lower(ext).len() == 4);
    assert(ext.len() == 4);
    assert(ascii_lower(ext)[3] == crate::text::ascii_lower_char(ext[3]));
    assert(!is_space(ext[3]));
    assert(s.last() == if rest.len() > 0 {
        rest.last()
    } else {
        ext[3]
    });
    crate::text::lemma_nothing_to_trim(s);
    reveal_strlit("\"");
    assert("\""@.len() == 1 && "\""@[0] == '"');
    assert(s.subrange(0, 1)[0] == path[0]);
    let l = ascii_lower(s);
    let n = path.len() as int;
    assert(l.subrange(n, n + 4) =~= ascii_lower(ext));
    assert(crate::text::occurs_at(l, ".exe"@, n));
    assert forall|j: int| 0 <= j < n implies !#[trigger] crate::text::occurs_at(l, ".exe"@, j) by {
        assert(l.subrange(j, j + 4) != ".exe"@);
    }
    lemma_place_of(l, ".exe"@, n);
    assert(s.take(n + 4) =~= path + ext);
    assert(s.skip(n + 4) =~= rest);
}

/// An application is removed by what it came with: the registry's by its own command, Steam's through its
/// address, and an unpacked one by deleting it.
pub proof fn applications_are_removed_by_what_they_came_with(a: AppRow)
    ensures
        a.source == Source::Portable ==> step_for(a) == StepRow::Delete,
        a.source == Source::Steam ==> step_for(a) == StepRow::Steam(a.uninstall_string),
        a.source == Source::Machine || a.source == Source::Machine32 || a.source == Source::User ==> (
        match command_for(a.uninstall_string) {
            Some(argv) => step_for(a) == StepRow::Run(argv),
            None => step_for(a) is Unusable,
        }),
{
}

/// What is left behind is looked for after every end of an uninstaller but two: the user's own refusal,
/// and one that never started. Codes 0 and 3010 alone are told as success.
pub proof fn only_refusals_end_an_uninstall(exit: Exit, on: bool)
    ensures
        exit_verdict(exit, on).ok <==> !(exit is NotStarted) && exit != Exit::Code(Some(1602)),
        !exit_verdict(exit, on).is_error <==> exit == Exit::Code(Some(0)) || exit == Exit::Code(
            Some(3010),
        ),
{
}

/// The sizes of the directories together.
pub open spec fn all_sizes(s: Seq<LeftoverRow>, n: int) -> nat
    decreases n,
{
    if n <= 0 {
        0
    } else {
        all_sizes(s, n - 1) + s[n - 1].size as nat
    }
}

/// What was swept is told as it went: where the guard lets every directory through and every deletion
/// works, all their sizes are freed and none is kept; where each is refused or fails, nothing is freed
/// and all are kept.
pub proof fn sweeping_tells_what_went(
    safety: SafetyRow,
    windows: bool,
    s: Seq<LeftoverRow>,
    turns: Seq<Turn>,
    n: int,
)
    requires
        0 <= n <= s.len(),
    ensures
        (forall|i: int|
            0 <= i < n ==> crate::clean::let_through(safety, (#[trigger] turns[i]).parts)
                && turns[i].outcome is Ok) ==> freed_by(
            uninstall_cleaner(safety, windows),
            s,
            turns,
            n,
        ) == all_sizes(s, n) && kept_by(uninstall_cleaner(safety, windows), s, turns, n) == 0,
        (forall|i: int|
            0 <= i < n ==> !crate::clean::let_through(safety, (#[trigger] turns[i]).parts)
                || turns[i].outcome is Err) ==> freed_by(
            uninstall_cleaner(safety, windows),
            s,
            turns,
            n,
        ) == 0 && kept_by(uninstall_cleaner(safety, windows), s, turns, n) == n,
    decreases n,
{
    let c = uninstall_cleaner(safety, windows);
    if n > 0 {
        sweeping_tells_what_went(safety, windows, s, turns, n - 1);
        lemma_sweep_rules(c, s, turns, n - 1);
        crate::clean::turns_count_what_happened(
            before_turn(c, s, turns, n - 1),
            s[n - 1].path,
            turns[n - 1],
        );
    }
}

proof fn lemma_sweep_rules(c: CleanerRow, s: Seq<LeftoverRow>, turns: Seq<Turn>, n: int)
    ensures
        crate::clean::same_rules(c, before_turn(c, s, turns, n)),
    decreases n,
{
    if n > 0 {
        lemma_sweep_rules(c, s, turns, n - 1);
        crate::clean::turns_count_what_happened(
            before_turn(c, s, turns, n - 1),
            s[n - 1].path,
            turns[n - 1],
        );
    }
}

/// Nothing is removed unasked: outside a dry run, unless consent was given beforehand, removal and
/// deletion both wait for the user's yes; a no ends it well, with nothing touched; and a dry run never
/// deletes what was left behind.
pub proof fn removal_takes_consent(
    opts: UninstallOptions,
    agreed: bool,
    count: usize,
    first: Stage,
    offered: Stage,
    yes: bool,
    heard: Heard,
    left: Heard,
)
    requires
        call_ensures(first_stage, (&opts, agreed), first),
        call_ensures(offer, (count, opts.dry_run, opts.yes), offered),
        call_ensures(take_answer, (yes,), heard),
        call_ensures(take_leftover_answer, (yes,), left),
    ensures
        !opts.dry_run && !opts.yes && !agreed ==> first == Stage::Ask,
        opts.dry_run || opts.yes || agreed ==> first == Stage::Remove,
        opts.dry_run || count == 0 ==> offered == Stage::End(true),
        !opts.dry_run && count > 0 && opts.yes ==> offered == Stage::Sweep,
        !opts.dry_run && count > 0 && !opts.yes ==> offered == Stage::AskLeftovers,
        heard.stage == (if yes {
            Stage::Remove
        } else {
            Stage::End(true)
        }),
        left.stage == (if yes {
            Stage::Sweep
        } else {
            Stage::End(true)
        }),
{
    assert(heard@.stage == heard.stage);
    assert(left@.stage == left.stage);
}

/// A portable application is deleted, or it is said why not: what the guard refuses is refused, a dry run
/// deletes nothing and ends well, and else it ends well exactly where the deletion worked.
pub proof fn portable_ends_tell_what_happened(
    safety: SafetyRow,
    windows: bool,
    path: Seq<char>,
    place: PathRow,
    found: Option<Node>,
    turn: Turn,
    dry_run: bool,
    on: bool,
)
    ensures
        ({
            let said = portable_verdict(safety, windows, path, place, found, turn, dry_run, on);
            &&& refusal(safety, place) is Some ==> !said.ok && said.is_error
            &&& refusal(safety, place) is None && dry_run ==> said.ok && !said.is_error
            &&& refusal(safety, place) is None && !dry_run ==> (said.ok <==> crate::clean::let_through(
                safety,
                turn.parts,
            ) && turn.outcome is Ok)
            &&& said.ok == !said.is_error
        }),
{
    crate::clean::turns_count_what_happened(uninstall_cleaner(safety, windows), path, turn);
}

/// What was left behind adds up.
pub proof fn leftover_sizes_add_up(s: Seq<LeftoverRow>, t: Seq<LeftoverRow>, l: LeftoverRow)
    ensures
        leftover_total(s + t) == leftover_total(s) + leftover_total(t),
        leftover_total(seq![l]) == l.size,
    decreases t.len(),
{
    assert(seq![l].drop_last() =~= Seq::<LeftoverRow>::empty());
    assert(leftover_total(seq![l].drop_last()) == 0);
    assert(seq![l].last() == l);
    if t.len() > 0 {
        leftover_sizes_add_up(s, t.drop_last(), l);
        assert((s + t).drop_last() =~= s + t.drop_last());
    } else {
        assert(s + t =~= s);
    }
}

} // verus!
