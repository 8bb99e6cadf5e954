//! The deletion engine. Every removal goes through here: whitelist, safety guard, dry run, then the
//! deletion and its record in the audit log.
//!
//! The deletion itself, and what is read from the disk, is handed in. The preconditions say when
//! the deletion may be called at all: outside a dry run, on a path that was asked for, that was read
//! before, and that the guard lets through.

use vstd::prelude::*;

use crate::calendar::{iso_from_unix, stamp_of};
use crate::encode::{base64, base64_text, doubled, utf16, utf16_bytes};
use crate::number::{decimal, decimal_of};
use crate::paths::{path_absolute, path_below, path_parts, reads_as, PathParts, PathRow};
use crate::safety::{is_place, refusal, whitelisted, Env, Safety, SafetyRow};
use crate::scan::{entry_size, held, plus, size_or_nothing, Node};
use crate::targets::{answers, answers_all, Mode, ResolvedTarget};
use crate::text::{chars_of, no_texts, push_text, replace, str_texts, string_of, text_opt, texts};

verus! {

// ---------------------------------------------------------------------------
// Statistics
// ---------------------------------------------------------------------------

/// What cleaning came to.
#[derive(Debug)]
pub struct CleanStats {
    pub freed: u64,
    pub deleted: usize,
    /// Entries that are locked or may not be deleted, which is common while programs run.
    pub failed: usize,
    /// Entries that the whitelist or the safety guard kept.
    pub skipped: usize,
    pub failed_paths: Vec<String>,
    pub failure_reasons: Vec<String>,
}

/// Statistics as mathematical data.
pub struct StatsRow {
    pub freed: nat,
    pub deleted: nat,
    pub failed: nat,
    pub skipped: nat,
    pub failed_paths: Seq<Seq<char>>,
    pub failure_reasons: Seq<Seq<char>>,
}

impl View for CleanStats {
    type V = StatsRow;

    open spec fn view(&self) -> StatsRow {
        StatsRow {
            freed: self.freed as nat,
            deleted: self.deleted as nat,
            failed: self.failed as nat,
            skipped: self.skipped as nat,
            failed_paths: texts(self.failed_paths@),
            failure_reasons: texts(self.failure_reasons@),
        }
    }
}

/// Nothing was done.
pub open spec fn no_stats() -> StatsRow {
    StatsRow {
        freed: 0,
        deleted: 0,
        failed: 0,
        skipped: 0,
        failed_paths: seq![],
        failure_reasons: seq![],
    }
}

/// A count, held at the largest that the machine can tell.
pub open spec fn held_count(n: nat) -> nat {
    if n <= usize::MAX {
        n
    } else {
        usize::MAX as nat
    }
}

/// Two statistics together.
pub open spec fn merged(a: StatsRow, b: StatsRow) -> StatsRow {
    StatsRow {
        freed: held(a.freed + b.freed),
        deleted: held_count(a.deleted + b.deleted),
        failed: held_count(a.failed + b.failed),
        skipped: held_count(a.skipped + b.skipped),
        failed_paths: a.failed_paths + b.failed_paths,
        failure_reasons: a.failure_reasons + b.failure_reasons,
    }
}

impl Default for CleanStats {
    fn default() -> (r: CleanStats)
        ensures
            r@ == no_stats(),
    {
        CleanStats {
            freed: 0,
            deleted: 0,
            failed: 0,
            skipped: 0,
            failed_paths: no_texts(),
            failure_reasons: no_texts(),
        }
    }
}

fn count_plus(a: usize, b: usize) -> (r: usize)
    ensures
        r == held_count((a + b) as nat),
{
    if a > usize::MAX - b {
        usize::MAX
    } else {
        a + b
    }
}

/// Adds copies of strings to the end of a list.
fn extend_texts(list: &mut Vec<String>, more: &Vec<String>)
    ensures
        texts(final(list)@) == texts(old(list)@) + texts(more@),
{
    let ghost before = texts(list@);
    let ghost all = texts(more@);
    assert(before + all.take(0) =~= before);
    for i in 0..more.len()
        invariant
            all == texts(more@),
            texts(list@) == before + all.take(i as int),
    {
        push_text(list, more[i].clone());
        assert(texts(list@) =~= before + all.take(i + 1));
    }
    assert(all.take(all.len() as int) =~= all);
}

impl CleanStats {
    /// Adds other statistics to these. Sizes and counts are held at the largest that they can tell.
    pub fn merge(&mut self, other: &CleanStats)
        ensures
            final(self)@ == merged(old(self)@, other@),
    {
        self.freed = plus(self.freed, other.freed);
        self.deleted = count_plus(self.deleted, other.deleted);
        self.failed = count_plus(self.failed, other.failed);
        self.skipped = count_plus(self.skipped, other.skipped);
        extend_texts(&mut self.failed_paths, &other.failed_paths);
        extend_texts(&mut self.failure_reasons, &other.failure_reasons);
    }
}

// ---------------------------------------------------------------------------
// Failures and the audit log
// ---------------------------------------------------------------------------

/// Why a deletion failed.
#[derive(Clone, Copy, PartialEq, Eq, Debug, Structural)]
pub enum FailureKind {
    PermissionDenied,
    NotFound,
    IsADirectory,
    Other,
}

/// A failed deletion.
#[derive(Debug)]
pub struct Failure {
    pub kind: FailureKind,
    /// What the system says of it.
    pub message: String,
}

/// The reason that is reported for a failure.
pub open spec fn failure_reason(kind: FailureKind, message: Seq<char>) -> Seq<char> {
    match kind {
        FailureKind::PermissionDenied => "permission denied"@,
        FailureKind::NotFound => "file disappeared"@,
        FailureKind::IsADirectory => "directory is in use"@,
        FailureKind::Other => message,
    }
}

/// What a record of the audit log tells.
#[derive(Clone, Copy, PartialEq, Eq, Debug, Structural)]
pub enum Action {
    Removed,
    Failed,
}

/// A record of the audit log.
#[derive(Debug)]
pub struct AuditEntry {
    pub action: Action,
    pub size: u64,
    pub path: String,
}

/// A record as mathematical data.
pub struct AuditRow {
    pub action: Action,
    pub size: u64,
    pub path: Seq<char>,
}

impl View for AuditEntry {
    type V = AuditRow;

    open spec fn view(&self) -> AuditRow {
        AuditRow { action: self.action, size: self.size, path: self.path@ }
    }
}

pub open spec fn audit_rows(v: Seq<AuditEntry>) -> Seq<AuditRow> {
    v.map_values(|e: AuditEntry| e@)
}

/// The word for an action.
pub open spec fn action_word(a: Action) -> Seq<char> {
    match a {
        Action::Removed => "REMOVED"@,
        Action::Failed => "FAILED"@,
    }
}

/// The record with the time stamp of the given Unix time, the fields set apart by tabs.
pub open spec fn record_line(secs: int, e: AuditRow) -> Seq<char> {
    stamp_of(secs) + "\t"@ + action_word(e.action) + "\t"@ + decimal(e.size as nat) + "\t"@ + e.path
        + "\n"@
}

/// The line of a record.
pub fn audit_line(secs: u64, entry: &AuditEntry) -> (r: String)
    ensures
        r@ == record_line(secs as int, entry@),
{
    let mut out = iso_from_unix(secs);
    out.append("\t");
    out.append(
        match entry.action {
            Action::Removed => "REMOVED",
            Action::Failed => "FAILED",
        },
    );
    out.append("\t");
    out.append(decimal_of(entry.size).as_str());
    out.append("\t");
    out.append(entry.path.as_str());
    out.append("\n");
    out
}

/// The pieces of the path of the audit log.
pub open spec fn log_pieces(env: Env) -> Option<Seq<Seq<char>>> {
    match env("LOCALAPPDATA"@) {
        Some(dir) => Some(seq![dir, "dustpan"@, "operations.log"@]),
        None => match env("HOME"@) {
            Some(home) => Some(seq![home, ".local"@, "share"@, "dustpan"@, "operations.log"@]),
            None => None,
        },
    }
}

/// `%LOCALAPPDATA%\dustpan\operations.log`, or `~/.local/share/dustpan/operations.log`.
pub fn log_path<F: Fn(&str) -> Option<String>>(lookup: &F) -> (r: Option<String>)
    requires
        answers_all(*lookup),
    ensures
        forall|env: Env|
            answers(*lookup, env) ==> is_place(text_opt(r), #[trigger] log_pieces(env)),
{
    let local = lookup("LOCALAPPDATA");
    if let Some(dir) = &local {
        let names: [&str; 2] = ["dustpan", "operations.log"];
        let p = path_below(dir.as_str(), names.as_slice());
        assert(seq![dir@] + str_texts(names@) =~= seq![dir@, "dustpan"@, "operations.log"@]);
        return Some(p);
    }
    let home = lookup("HOME");
    if let Some(h) = &home {
        let names: [&str; 4] = [".local", "share", "dustpan", "operations.log"];
        let p = path_below(h.as_str(), names.as_slice());
        assert(seq![h@] + str_texts(names@) =~= seq![
            h@,
            ".local"@,
            "share"@,
            "dustpan"@,
            "operations.log"@,
        ]);
        return Some(p);
    }
    None
}

// ---------------------------------------------------------------------------
// The cleaner
// ---------------------------------------------------------------------------

/// The outside work of cleaning.
pub struct Hands<R, D, E, N> {
    /// Reads what is at a path.
    pub read: R,
    /// Deletes what is at a path.
    pub remove: D,
    /// Deletes what is at a path with administrator rights; tells whether it worked.
    pub elevate: E,
    /// Writes a record to the audit log.
    pub note: N,
}

/// Cleans targets, one guard for every entry.
pub struct Cleaner<'a> {
    safety: &'a Safety,
    dry_run: bool,
    windows: bool,
    allow_elevation: bool,
    /// The records that were handed to the function that writes the audit log.
    pub audit: Vec<AuditEntry>,
    /// Why entries were kept, or could not be deleted.
    pub verbose_lines: Vec<String>,
}

/// The cleaner as mathematical data.
pub struct CleanerRow {
    pub safety: SafetyRow,
    pub dry_run: bool,
    pub windows: bool,
    pub allow_elevation: bool,
    pub audit: Seq<AuditRow>,
    pub lines: Seq<Seq<char>>,
}

impl<'a> View for Cleaner<'a> {
    type V = CleanerRow;

    closed spec fn view(&self) -> CleanerRow {
        CleanerRow {
            safety: self.safety@,
            dry_run: self.dry_run,
            windows: self.windows,
            allow_elevation: self.allow_elevation,
            audit: audit_rows(self.audit@),
            lines: texts(self.verbose_lines@),
        }
    }
}

/// The guard lets the path through: it is not whitelisted, and nothing forbids its deletion.
pub open spec fn let_through(s: SafetyRow, p: PathRow) -> bool {
    !whitelisted(s, p) && refusal(s, p) is None
}

/// A text may be handed to the deletion: this is no dry run, and the guard lets the path through.
pub open spec fn may_delete(c: CleanerRow, path: Seq<char>) -> bool {
    !c.dry_run && exists|p: PathRow| #[trigger] reads_as(path, p) && let_through(c.safety, p)
}

/// The record was handed to the function that writes the audit log.
pub open spec fn handed_over<N: Fn(&AuditEntry)>(note: N, row: AuditRow) -> bool {
    exists|e: &AuditEntry| e@ == row && #[trigger] call_ensures(note, (e,), ())
}

/// The second list of records is the first with more behind it, and each of those behind it was handed
/// to the function that writes the audit log.
pub open spec fn noted<N: Fn(&AuditEntry)>(
    note: N,
    before: Seq<AuditRow>,
    after: Seq<AuditRow>,
) -> bool {
    &&& before.is_prefix_of(after)
    &&& forall|i: int| before.len() <= i < after.len() ==> handed_over(note, #[trigger] after[i])
}

/// What was noted in two goes was noted.
pub proof fn lemma_noted<N: Fn(&AuditEntry)>(
    note: N,
    a: Seq<AuditRow>,
    b: Seq<AuditRow>,
    c: Seq<AuditRow>,
)
    requires
        noted(note, a, b),
        noted(note, b, c),
    ensures
        noted(note, a, c),
{
    assert(a =~= c.take(a.len() as int));
    assert forall|i: int| a.len() <= i < c.len() implies handed_over(note, #[trigger] c[i]) by {
        if i < b.len() {
            assert(c[i] == b[i]);
        }
    }
}

/// What the outside world answered for one entry.
pub struct Turn {
    /// The parts that the platform reads in the path.
    pub parts: PathRow,
    /// What was read at the path.
    pub found: Option<Node>,
    /// How the deletion ended.
    pub outcome: Result<(), Failure>,
    /// Whether the deletion with administrator rights worked.
    pub elevated: bool,
}

/// The cleaner tries again with administrator rights.
pub open spec fn tries_elevation(c: CleanerRow, outcome: Result<(), Failure>) -> bool {
    match outcome {
        Ok(_) => false,
        Err(f) => c.windows && c.allow_elevation && f.kind == FailureKind::PermissionDenied,
    }
}

/// The answers are ones that the outside work gave: each is asked for only where it is needed.
pub open spec fn is_turn<
    R: Fn(&str) -> Option<Node>,
    D: Fn(&str) -> Result<(), Failure>,
    E: Fn(&str) -> bool,
    N: Fn(&AuditEntry),
>(h: Hands<R, D, E, N>, c: CleanerRow, path: &str, t: Turn) -> bool {
    &&& reads_as(path@, t.parts)
    &&& let_through(c.safety, t.parts) ==> call_ensures(h.read, (path,), t.found)
    &&& let_through(c.safety, t.parts) && !c.dry_run ==> call_ensures(h.remove, (path,), t.outcome)
    &&& let_through(c.safety, t.parts) && !c.dry_run && tries_elevation(c, t.outcome)
        ==> call_ensures(h.elevate, (path,), t.elevated)
}

/// The record of a turn: of every attempt to delete, and of nothing else.
pub open spec fn record_of(c: CleanerRow, path: Seq<char>, t: Turn) -> Option<AuditRow> {
    let size = held(size_or_nothing(t.found)) as u64;
    if !let_through(c.safety, t.parts) || c.dry_run {
        None
    } else if t.outcome is Ok || (tries_elevation(c, t.outcome) && t.elevated) {
        Some(AuditRow { action: Action::Removed, size, path })
    } else {
        Some(AuditRow { action: Action::Failed, size: 0, path })
    }
}

/// The outside work can be called as far as the cleaner may call it on the paths that it is asked to
/// clean, and no further: deletion only on a path that was asked for and may be deleted, once it was
/// read; deletion with administrator rights only where deletion was denied besides; and a record is
/// written only of a turn that one of these paths had.
pub open spec fn ready_on<
    R: Fn(&str) -> Option<Node>,
    D: Fn(&str) -> Result<(), Failure>,
    E: Fn(&str) -> bool,
    N: Fn(&AuditEntry),
>(h: Hands<R, D, E, N>, c: CleanerRow, asked: spec_fn(Seq<char>) -> bool) -> bool {
    &&& forall|p: &str| #[trigger] call_requires(h.read, (p,))
    &&& forall|p: &str, f: Option<Node>|
        asked(p@) && may_delete(c, p@) && #[trigger] call_ensures(h.read, (p,), f)
            ==> call_requires(h.remove, (p,))
    &&& forall|p: &str, o: Result<(), Failure>|
        asked(p@) && may_delete(c, p@) && #[trigger] call_ensures(h.remove, (p,), o)
            && tries_elevation(c, o) ==> call_requires(h.elevate, (p,))
    &&& forall|e: &AuditEntry, p: &str, t: Turn|
        asked(p@) && #[trigger] is_turn(h, c, p, t) && record_of(c, p@, t) == Some(e@)
            ==> #[trigger] call_requires(h.note, (e,))
}

/// The path alone.
pub open spec fn only(path: Seq<char>) -> spec_fn(Seq<char>) -> bool {
    |p: Seq<char>| p == path
}

/// The paths of a list.
pub open spec fn among(paths: Seq<Seq<char>>) -> spec_fn(Seq<char>) -> bool {
    |p: Seq<char>| paths.contains(p)
}

/// What can be called for some paths can be called for fewer, and by every cleaner with the same rules.
pub proof fn lemma_ready_on<
    R: Fn(&str) -> Option<Node>,
    D: Fn(&str) -> Result<(), Failure>,
    E: Fn(&str) -> bool,
    N: Fn(&AuditEntry),
>(
    h: Hands<R, D, E, N>,
    a: CleanerRow,
    b: CleanerRow,
    asked: spec_fn(Seq<char>) -> bool,
    fewer: spec_fn(Seq<char>) -> bool,
)
    requires
        ready_on(h, a, asked),
        same_rules(a, b),
        forall|p: Seq<char>| #[trigger] fewer(p) ==> asked(p),
    ensures
        ready_on(h, b, fewer),
{
    assert forall|p: &str, f: Option<Node>|
        fewer(p@) && may_delete(b, p@) && #[trigger] call_ensures(
            h.read,
            (p,),
            f,
        ) implies call_requires(h.remove, (p,)) by {
        assert(asked(p@) && may_delete(a, p@));
    }
    assert forall|p: &str, o: Result<(), Failure>|
        fewer(p@) && may_delete(b, p@) && #[trigger] call_ensures(h.remove, (p,), o)
            && tries_elevation(b, o) implies call_requires(h.elevate, (p,)) by {
        assert(asked(p@) && may_delete(a, p@) && tries_elevation(a, o));
    }
    assert forall|e: &AuditEntry, p: &str, t: Turn|
        fewer(p@) && #[trigger] is_turn(h, b, p, t) && record_of(b, p@, t) == Some(
            e@,
        ) implies #[trigger] call_requires(h.note, (e,)) by {
        assert(asked(p@) && is_turn(h, a, p, t) && record_of(a, p@, t) == Some(e@));
    }
}

/// The cleaner with one more line.
pub open spec fn with_line(c: CleanerRow, line: Seq<char>) -> CleanerRow {
    CleanerRow { lines: c.lines.push(line), ..c }
}

/// The cleaner with one more record.
pub open spec fn with_record(
    c: CleanerRow,
    action: Action,
    size: u64,
    path: Seq<char>,
) -> CleanerRow {
    CleanerRow { audit: c.audit.push(AuditRow { action, size, path }), ..c }
}

/// One entry was kept.
pub open spec fn one_skipped() -> StatsRow {
    StatsRow { skipped: 1, ..no_stats() }
}

/// One entry of the given size was deleted, or would be.
pub open spec fn one_deleted(size: nat) -> StatsRow {
    StatsRow { freed: size, deleted: 1, ..no_stats() }
}

/// One entry could not be deleted.
pub open spec fn one_failed(path: Seq<char>, reason: Seq<char>) -> StatsRow {
    StatsRow {
        failed: 1,
        failed_paths: seq![path],
        failure_reasons: seq![path + ": "@ + reason],
        ..no_stats()
    }
}

/// The entry was kept for a reason.
pub open spec fn after_skip(c: CleanerRow, path: Seq<char>, reason: Seq<char>) -> (
    CleanerRow,
    StatsRow,
) {
    (with_line(c, "skip ("@ + reason + "): "@ + path), one_skipped())
}

/// The entry was deleted.
pub open spec fn after_removal(c: CleanerRow, path: Seq<char>, size: nat) -> (
    CleanerRow,
    StatsRow,
) {
    (with_record(c, Action::Removed, size as u64, path), one_deleted(size))
}

/// The entry could not be deleted.
pub open spec fn after_failure(c: CleanerRow, path: Seq<char>, reason: Seq<char>) -> (
    CleanerRow,
    StatsRow,
) {
    (
        with_record(
            with_line(c, "failed ("@ + reason + "): "@ + path),
            Action::Failed,
            0,
            path,
        ),
        one_failed(path, reason),
    )
}

/// What becomes of the cleaner, and of the statistics, when one entry has its turn.
pub open spec fn step(c: CleanerRow, path: Seq<char>, t: Turn) -> (CleanerRow, StatsRow) {
    let size = held(size_or_nothing(t.found));
    if whitelisted(c.safety, t.parts) {
        after_skip(c, path, "whitelisted"@)
    } else if let Some(reason) = refusal(c.safety, t.parts) {
        after_skip(c, path, reason)
    } else if c.dry_run {
        (with_line(c, "would remove: "@ + path), one_deleted(size))
    } else {
        match t.outcome {
            Ok(_) => after_removal(c, path, size),
            Err(f) => if tries_elevation(c, t.outcome) && t.elevated {
                after_removal(c, path, size)
            } else {
                after_failure(c, path, failure_reason(f.kind, f.message@))
            },
        }
    }
}

fn one_skip() -> (r: CleanStats)
    ensures
        r@ == one_skipped(),
{
    CleanStats { skipped: 1, ..CleanStats::default() }
}

fn one_delete(size: u64) -> (r: CleanStats)
    ensures
        r@ == one_deleted(size as nat),
{
    CleanStats { freed: size, deleted: 1, ..CleanStats::default() }
}

fn reason_text(f: &Failure) -> (r: String)
    ensures
        r@ == failure_reason(f.kind, f.message@),
{
    match f.kind {
        FailureKind::PermissionDenied => "permission denied".to_string(),
        FailureKind::NotFound => "file disappeared".to_string(),
        FailureKind::IsADirectory => "directory is in use".to_string(),
        FailureKind::Other => f.message.clone(),
    }
}

/// A text with a reason in brackets in front of it.
fn bracketed(word: &str, reason: &str, path: &str) -> (r: String)
    ensures
        r@ == word@ + reason@ + "): "@ + path@,
{
    let mut out = word.to_string();
    out.append(reason);
    out.append("): ");
    out.append(path);
    out
}

/// A path and what is said of it.
fn colon(path: &str, what: &str) -> (r: String)
    ensures
        r@ == path@ + ": "@ + what@,
{
    let mut out = path.to_string();
    out.append(": ");
    out.append(what);
    out
}

impl<'a> Cleaner<'a> {
    pub fn new(safety: &'a Safety, dry_run: bool, windows: bool) -> (r: Cleaner<'a>)
        ensures
            r@ == (CleanerRow {
                safety: safety@,
                dry_run,
                windows,
                allow_elevation: false,
                audit: seq![],
                lines: seq![],
            }),
    {
        let r = Cleaner {
            safety,
            dry_run,
            windows,
            allow_elevation: false,
            audit: Vec::new(),
            verbose_lines: no_texts(),
        };
        assert(audit_rows(r.audit@) =~= Seq::<AuditRow>::empty());
        r
    }

    /// Administrator rights are allowed target by target: only the caches of Windows itself may ask
    /// for them.
    pub fn set_elevation_for_target(&mut self, allowed: bool)
        ensures
            final(self)@ == (CleanerRow { allow_elevation: allowed, ..old(self)@ }),
    {
        self.allow_elevation = allowed;
    }

    fn add_line(&mut self, line: String)
        ensures
            final(self)@ == with_line(old(self)@, line@),
    {
        push_text(&mut self.verbose_lines, line);
    }

    fn record<N: Fn(&AuditEntry)>(&mut self, action: Action, size: u64, path: &str, note: &N)
        requires
            forall|e: &AuditEntry|
                e@ == (AuditRow { action, size, path: path@ }) ==> #[trigger] call_requires(
                    *note,
                    (e,),
                ),
        ensures
            final(self)@ == with_record(old(self)@, action, size, path@),
            handed_over(*note, (AuditRow { action, size, path: path@ })),
    {
        let entry = AuditEntry { action, size, path: path.to_string() };
        assert(entry@ == (AuditRow { action, size, path: path@ }));
        note(&entry);
        assert(call_ensures(*note, (&entry,), ()));
        let ghost before = self.audit@;
        self.audit.push(entry);
        assert(audit_rows(self.audit@) =~= audit_rows(before).push(entry@));
    }

    /// Puts what the outside world answered for one entry into lines, records and statistics.
    /// `found` matters only where the guard lets the path through, `outcome` only outside a dry run,
    /// and `elevated` only where administrator rights were tried.
    pub fn settle<N: Fn(&AuditEntry)>(
        &mut self,
        path: &str,
        parts: &PathParts,
        found: &Option<Node>,
        outcome: &Result<(), Failure>,
        elevated: bool,
        note: &N,
    ) -> (r: CleanStats)
        requires
            forall|e: &AuditEntry|
                record_of(
                    old(self)@,
                    path@,
                    (Turn { parts: parts@, found: *found, outcome: *outcome, elevated }),
                ) == Some(e@) ==> #[trigger] call_requires(*note, (e,)),
        ensures
            (final(self)@, r@) == step(
                old(self)@,
                path@,
                (Turn { parts: parts@, found: *found, outcome: *outcome, elevated }),
            ),
            noted(*note, old(self)@.audit, final(self)@.audit),
    {
        if self.safety.keeps_parts(parts) {
            self.add_line(bracketed("skip (", "whitelisted", path));
            return one_skip();
        }
        match self.safety.check_parts(parts) {
            Err(reason) => {
                self.add_line(bracketed("skip (", reason, path));
                return one_skip();
            },
            Ok(_) => {},
        }
        let size = entry_size(found);
        if self.dry_run {
            let mut line = "would remove: ".to_string();
            line.append(path);
            self.add_line(line);
            return one_delete(size);
        }
        match outcome {
            Ok(_) => {
                self.record(Action::Removed, size, path, note);
                one_delete(size)
            },
            Err(f) => {
                if self.windows && self.allow_elevation && matches!(
                    f.kind,
                    FailureKind::PermissionDenied
                ) && elevated {
                    self.record(Action::Removed, size, path, note);
                    return one_delete(size);
                }
                let reason = reason_text(f);
                let mut stats = CleanStats::default();
                stats.failed = 1;
                push_text(&mut stats.failed_paths, path.to_string());
                push_text(&mut stats.failure_reasons, colon(path, reason.as_str()));
                assert(texts(stats.failed_paths@) =~= seq![path@]);
                assert(texts(stats.failure_reasons@) =~= seq![path@ + ": "@ + reason@]);
                self.add_line(bracketed("failed (", reason.as_str(), path));
                self.record(Action::Failed, 0, path, note);
                stats
            },
        }
    }

    /// The guard for a single entry: whitelist, safety, dry run, deletion, record.
    pub fn remove_one<
        R: Fn(&str) -> Option<Node>,
        D: Fn(&str) -> Result<(), Failure>,
        E: Fn(&str) -> bool,
        N: Fn(&AuditEntry),
    >(&mut self, path: &str, hands: &Hands<R, D, E, N>) -> (r: CleanStats)
        requires
            ready_on(*hands, old(self)@, only(path@)),
        ensures
            exists|t: Turn|
                #[trigger] is_turn(*hands, old(self)@, path, t) && (final(self)@, r@) == step(
                    old(self)@,
                    path@,
                    t,
                ),
            noted(hands.note, old(self)@.audit, final(self)@.audit),
    {
        let ghost c = self@;
        let parts = PathParts::parse(path);
        let mut found: Option<Node> = None;
        let mut outcome: Result<(), Failure> = Ok(());
        let mut elevated = false;
        let passes = !self.safety.keeps_parts(&parts) && self.safety.check_parts(&parts).is_ok();
        assert(passes == let_through(c.safety, parts@));
        if passes {
            found = (hands.read)(path);
            if !self.dry_run {
                assert(only(path@)(path@) && may_delete(c, path@));
                outcome = (hands.remove)(path);
                let retry = match &outcome {
                    Ok(_) => false,
                    Err(f) => self.windows && self.allow_elevation && matches!(
                        f.kind,
                        FailureKind::PermissionDenied
                    ),
                };
                if retry {
                    elevated = (hands.elevate)(path);
                }
            }
        }
        let ghost t = Turn { parts: parts@, found, outcome, elevated };
        assert(only(path@)(path@) && is_turn(*hands, c, path, t));
        self.settle(path, &parts, &found, &outcome, elevated, &hands.note)
    }
}

// ---------------------------------------------------------------------------
// Whole targets
// ---------------------------------------------------------------------------

/// An entry that reading a directory came upon.
pub enum Listed {
    /// The path of an entry.
    Path(String),
    /// An entry that could not be read, and why.
    Unreadable(String),
}

/// An entry as mathematical data.
pub enum ListedRow {
    Path(Seq<char>),
    Unreadable(Seq<char>),
}

impl View for Listed {
    type V = ListedRow;

    open spec fn view(&self) -> ListedRow {
        match self {
            Listed::Path(p) => ListedRow::Path(p@),
            Listed::Unreadable(e) => ListedRow::Unreadable(e@),
        }
    }
}

pub open spec fn listed_rows(v: Seq<Listed>) -> Seq<ListedRow> {
    v.map_values(|e: Listed| e@)
}

/// The paths among the entries of a directory.
pub open spec fn listed_in(entries: Seq<ListedRow>) -> spec_fn(Seq<char>) -> bool {
    |p: Seq<char>| entries.contains(ListedRow::Path(p))
}

/// A failure that no entry of its own stands for.
pub open spec fn failed_reading(dir: Seq<char>, reason: Seq<char>) -> StatsRow {
    StatsRow { failed: 1, failure_reasons: seq![dir + ": "@ + reason], ..no_stats() }
}

/// What becomes of the cleaner, and of the statistics, when every entry of a directory has its turn.
pub open spec fn run(
    c: CleanerRow,
    dir: Seq<char>,
    entries: Seq<ListedRow>,
    turns: Seq<Turn>,
) -> (CleanerRow, StatsRow)
    decreases entries.len(),
{
    if entries.len() == 0 {
        (c, no_stats())
    } else {
        let n = entries.len() - 1;
        let (mid, sofar) = run(c, dir, entries.drop_last(), turns);
        match entries.last() {
            ListedRow::Path(p) => {
                let (end, one) = step(mid, p, turns[n]);
                (end, merged(sofar, one))
            },
            ListedRow::Unreadable(e) => (mid, merged(sofar, failed_reading(dir, e))),
        }
    }
}

/// The rights and rules of two cleaners are the same.
pub open spec fn same_rules(a: CleanerRow, b: CleanerRow) -> bool {
    a.safety == b.safety && a.dry_run == b.dry_run && a.windows == b.windows && a.allow_elevation
        == b.allow_elevation
}

/// Every answer is one that the outside work gave for the entry in its place.
pub open spec fn are_turns<
    R: Fn(&str) -> Option<Node>,
    D: Fn(&str) -> Result<(), Failure>,
    E: Fn(&str) -> bool,
    N: Fn(&AuditEntry),
>(h: Hands<R, D, E, N>, c: CleanerRow, entries: Seq<ListedRow>, turns: Seq<Turn>) -> bool {
    &&& turns.len() == entries.len()
    &&& forall|i: int| 0 <= i < entries.len() ==> #[trigger] turn_fits(h, c, entries[i], turns[i])
}

/// The answer is one that the outside work gave for the entry.
pub open spec fn turn_fits<
    R: Fn(&str) -> Option<Node>,
    D: Fn(&str) -> Result<(), Failure>,
    E: Fn(&str) -> bool,
    N: Fn(&AuditEntry),
>(h: Hands<R, D, E, N>, c: CleanerRow, entry: ListedRow, t: Turn) -> bool {
    match entry {
        ListedRow::Path(p) => exists|path: &str| path@ == p && #[trigger] is_turn(h, c, path, t),
        ListedRow::Unreadable(_) => true,
    }
}

/// A turn changes nothing of the rights and rules.
proof fn lemma_step_rules(c: CleanerRow, path: Seq<char>, t: Turn)
    ensures
        same_rules(c, step(c, path, t).0),
{
}

pub proof fn lemma_run_rules(c: CleanerRow, dir: Seq<char>, entries: Seq<ListedRow>, turns: Seq<Turn>)
    ensures
        same_rules(c, run(c, dir, entries, turns).0),
    decreases entries.len(),
{
    if entries.len() > 0 {
        lemma_run_rules(c, dir, entries.drop_last(), turns);
    }
}

/// Turns behind the entries do not matter.
proof fn lemma_run_prefix(
    c: CleanerRow,
    dir: Seq<char>,
    entries: Seq<ListedRow>,
    turns: Seq<Turn>,
    more: Turn,
)
    requires
        turns.len() >= entries.len(),
    ensures
        run(c, dir, entries, turns.push(more)) == run(c, dir, entries, turns),
    decreases entries.len(),
{
    if entries.len() > 0 {
        lemma_run_prefix(c, dir, entries.drop_last(), turns, more);
    }
}

/// The ways in which cleaning a target can go.
pub enum Course {
    /// The directory is itself a link.
    Link,
    /// The directory cannot be read.
    Unreadable,
    /// Its entries had their turns.
    Entries(Seq<ListedRow>, Seq<Turn>),
}

/// What becomes of the cleaner, and of the statistics, when a target is cleaned.
pub open spec fn cleaned(c: CleanerRow, path: Seq<char>, course: Course) -> (CleanerRow, StatsRow) {
    match course {
        Course::Link => (
            with_line(c, "skip (target is a reparse point): "@ + path),
            one_skipped(),
        ),
        Course::Unreadable => (c, failed_reading(path, "cannot read directory"@)),
        Course::Entries(entries, turns) => run(c, path, entries, turns),
    }
}

/// The course is one that the outside work gave for the target.
pub open spec fn is_course<
    R: Fn(&str) -> Option<Node>,
    D: Fn(&str) -> Result<(), Failure>,
    E: Fn(&str) -> bool,
    N: Fn(&AuditEntry),
    K: Fn(&str) -> bool,
    L: Fn(&str) -> Option<Vec<Listed>>,
>(
    h: Hands<R, D, E, N>,
    c: CleanerRow,
    is_link: K,
    list: L,
    path: &str,
    mode: Mode,
    course: Course,
) -> bool {
    match mode {
        Mode::Entry => course matches Course::Entries(entries, turns) && entries == seq![
            ListedRow::Path(path@),
        ] && are_turns(h, c, entries, turns),
        Mode::Contents => match course {
            Course::Link => call_ensures(is_link, (path,), true),
            Course::Unreadable => call_ensures(is_link, (path,), false) && call_ensures(
                list,
                (path,),
                None,
            ),
            Course::Entries(entries, turns) => {
                &&& call_ensures(is_link, (path,), false)
                &&& exists|v: Vec<Listed>|
                    listed_rows(v@) == entries && #[trigger] call_ensures(list, (path,), Some(v))
                &&& are_turns(h, c, entries, turns)
            },
        },
    }
}

/// The outside work can be called as far as cleaning a target takes it: on the path itself, or on the
/// entries that reading the directory gave where it is no link. The directory is none of them.
pub open spec fn ready_for<
    R: Fn(&str) -> Option<Node>,
    D: Fn(&str) -> Result<(), Failure>,
    E: Fn(&str) -> bool,
    N: Fn(&AuditEntry),
    K: Fn(&str) -> bool,
    L: Fn(&str) -> Option<Vec<Listed>>,
>(
    h: Hands<R, D, E, N>,
    c: CleanerRow,
    is_link: K,
    list: L,
    path: Seq<char>,
    mode: Mode,
) -> bool {
    match mode {
        Mode::Entry => ready_on(h, c, only(path)),
        Mode::Contents => forall|p: &str, v: Vec<Listed>|
            p@ == path && call_ensures(is_link, (p,), false) && #[trigger] call_ensures(
                list,
                (p,),
                Some(v),
            ) ==> ready_on(h, c, listed_in(listed_rows(v@))),
    }
}

/// What can be called for a target can be called by every cleaner with the same rules.
pub proof fn lemma_ready_for<
    R: Fn(&str) -> Option<Node>,
    D: Fn(&str) -> Result<(), Failure>,
    E: Fn(&str) -> bool,
    N: Fn(&AuditEntry),
    K: Fn(&str) -> bool,
    L: Fn(&str) -> Option<Vec<Listed>>,
>(
    h: Hands<R, D, E, N>,
    a: CleanerRow,
    b: CleanerRow,
    is_link: K,
    list: L,
    path: Seq<char>,
    mode: Mode,
)
    requires
        ready_for(h, a, is_link, list, path, mode),
        same_rules(a, b),
    ensures
        ready_for(h, b, is_link, list, path, mode),
{
    match mode {
        Mode::Entry => {
            lemma_ready_on(h, a, b, only(path), only(path));
        },
        Mode::Contents => {
            assert forall|p: &str, v: Vec<Listed>|
                p@ == path && call_ensures(is_link, (p,), false) && #[trigger] call_ensures(
                    list,
                    (p,),
                    Some(v),
                ) implies ready_on(h, b, listed_in(listed_rows(v@))) by {
                let asked = listed_in(listed_rows(v@));
                lemma_ready_on(h, a, b, asked, asked);
            }
        },
    }
}

impl<'a> Cleaner<'a> {
    /// Gives every entry of a list its turn.
    fn remove_all<
        R: Fn(&str) -> Option<Node>,
        D: Fn(&str) -> Result<(), Failure>,
        E: Fn(&str) -> bool,
        N: Fn(&AuditEntry),
    >(&mut self, dir: &str, entries: &Vec<Listed>, hands: &Hands<R, D, E, N>) -> (r: CleanStats)
        requires
            ready_on(*hands, old(self)@, listed_in(listed_rows(entries@))),
        ensures
            exists|turns: Seq<Turn>|
                #[trigger] are_turns(*hands, old(self)@, listed_rows(entries@), turns) && (
                    final(self)@,
                    r@,
                ) == run(old(self)@, dir@, listed_rows(entries@), turns),
            noted(hands.note, old(self)@.audit, final(self)@.audit),
    {
        let ghost c = self@;
        let ghost all = listed_rows(entries@);
        let ghost mut turns: Seq<Turn> = seq![];
        let mut stats = CleanStats::default();
        let mut i: usize = 0;
        assert(all.take(0) =~= Seq::<ListedRow>::empty());
        while i < entries.len()
            invariant
                i <= entries@.len(),
                all == listed_rows(entries@),
                ready_on(*hands, c, listed_in(all)),
                same_rules(c, self@),
                are_turns(*hands, c, all.take(i as int), turns),
                (self@, stats@) == run(c, dir@, all.take(i as int), turns),
                noted(hands.note, c.audit, self@.audit),
            decreases entries@.len() - i,
        {
            let ghost mid = self@;
            let ghost before = turns;
            let ghost front = all.take(i as int);
            let ghost next = all.take(i + 1);
            assert(next.drop_last() =~= front);
            assert(next.last() == entries@[i as int]@);
            assert(all[i as int] == entries@[i as int]@);
            let ghost mut turn: Turn = arbitrary();
            match &entries[i] {
                Listed::Path(p) => {
                    let path = p.as_str();
                    proof {
                        assert(all[i as int] == ListedRow::Path(p@));
                        lemma_ready_on(*hands, c, mid, listed_in(all), only(p@));
                    }
                    let one = self.remove_one(path, hands);
                    proof {
                        turn = choose|t: Turn|
                            #[trigger] is_turn(*hands, mid, path, t) && (self@, one@) == step(
                                mid,
                                p@,
                                t,
                            );
                        lemma_step_rules(mid, p@, turn);
                        lemma_noted(hands.note, c.audit, mid.audit, self@.audit);
                        assert(is_turn(*hands, c, path, turn));
                    }
                    stats.merge(&one);
                },
                Listed::Unreadable(e) => {
                    let mut one = CleanStats::default();
                    one.failed = 1;
                    push_text(&mut one.failure_reasons, colon(dir, e.as_str()));
                    assert(texts(one.failure_reasons@) =~= seq![dir@ + ": "@ + e@]);
                    stats.merge(&one);
                },
            }
            proof {
                turns = before.push(turn);
                lemma_run_prefix(c, dir@, front, before, turn);
                assert forall|k: int| 0 <= k < next.len() implies #[trigger] turn_fits(
                    *hands,
                    c,
                    next[k],
                    turns[k],
                ) by {
                    if k < i {
                        assert(next[k] == front[k] && turns[k] == before[k]);
                        assert(turn_fits(*hands, c, front[k], before[k]));
                    } else {
                        assert(turns[k] == turn);
                    }
                }
            }
            i = i + 1;
        }
        assert(all.take(all.len() as int) =~= all);
        stats
    }

    /// Cleans one target: the entry itself, or everything in the directory, which stays.
    pub fn clean_target<
        R: Fn(&str) -> Option<Node>,
        D: Fn(&str) -> Result<(), Failure>,
        E: Fn(&str) -> bool,
        N: Fn(&AuditEntry),
        K: Fn(&str) -> bool,
        L: Fn(&str) -> Option<Vec<Listed>>,
    >(
        &mut self,
        target: &ResolvedTarget,
        hands: &Hands<R, D, E, N>,
        is_link: &K,
        list: &L,
    ) -> (r: CleanStats)
        requires
            ready_for(*hands, old(self)@, *is_link, *list, target@.path, target@.mode),
            forall|p: &str| #[trigger] call_requires(*is_link, (p,)),
            forall|p: &str| #[trigger] call_requires(*list, (p,)),
        ensures
            exists|course: Course, path: &str|
                path@ == target@.path && #[trigger] is_course(
                    *hands,
                    old(self)@,
                    *is_link,
                    *list,
                    path,
                    target@.mode,
                    course,
                ) && (final(self)@, r@) == cleaned(old(self)@, target@.path, course),
            noted(hands.note, old(self)@.audit, final(self)@.audit),
    {
        let ghost c = self@;
        let path = target.path.as_str();
        match target.mode {
            Mode::Entry => {
                let entries: Vec<Listed> = vec![Listed::Path(path.to_string())];
                proof {
                    let rows = listed_rows(entries@);
                    assert(rows =~= seq![ListedRow::Path(path@)]);
                    lemma_ready_on(*hands, c, c, only(path@), listed_in(rows));
                }
                let r = self.remove_all(path, &entries, hands);
                proof {
                    let rows = listed_rows(entries@);
                    let turns = choose|turns: Seq<Turn>|
                        #[trigger] are_turns(*hands, c, rows, turns) && (self@, r@) == run(
                            c,
                            path@,
                            rows,
                            turns,
                        );
                    let course = Course::Entries(rows, turns);
                    assert(is_course(*hands, c, *is_link, *list, path, target@.mode, course));
                }
                r
            },
            Mode::Contents => {
                let link = is_link(path);
                if link {
                    let mut line = "skip (target is a reparse point): ".to_string();
                    line.append(path);
                    self.add_line(line);
                    assert(is_course(
                        *hands,
                        c,
                        *is_link,
                        *list,
                        path,
                        target@.mode,
                        Course::Link,
                    ));
                    return one_skip();
                }
                match list(path) {
                    None => {
                        let mut one = CleanStats::default();
                        one.failed = 1;
                        push_text(&mut one.failure_reasons, colon(path, "cannot read directory"));
                        assert(texts(one.failure_reasons@) =~= seq![
                            path@ + ": "@ + "cannot read directory"@,
                        ]);
                        assert(is_course(
                            *hands,
                            c,
                            *is_link,
                            *list,
                            path,
                            target@.mode,
                            Course::Unreadable,
                        ));
                        one
                    },
                    Some(entries) => {
                        let r = self.remove_all(path, &entries, hands);
                        proof {
                            let rows = listed_rows(entries@);
                            let turns = choose|turns: Seq<Turn>|
                                #[trigger] are_turns(*hands, c, rows, turns) && (self@, r@)
                                    == run(c, path@, rows, turns);
                            let course = Course::Entries(rows, turns);
                            assert(is_course(
                                *hands,
                                c,
                                *is_link,
                                *list,
                                path,
                                target@.mode,
                                course,
                            ));
                        }
                        r
                    },
                }
            },
        }
    }

    /// Tries failed entries again, through the same guard.
    pub fn retry_failed<
        R: Fn(&str) -> Option<Node>,
        D: Fn(&str) -> Result<(), Failure>,
        E: Fn(&str) -> bool,
        N: Fn(&AuditEntry),
    >(&mut self, paths: &Vec<String>, hands: &Hands<R, D, E, N>) -> (r: CleanStats)
        requires
            ready_on(*hands, old(self)@, among(texts(paths@))),
        ensures
            exists|turns: Seq<Turn>|
                #[trigger] are_turns(*hands, old(self)@, as_listed(texts(paths@)), turns) && (
                    final(self)@,
                    r@,
                ) == run(old(self)@, seq![], as_listed(texts(paths@)), turns),
            noted(hands.note, old(self)@.audit, final(self)@.audit),
    {
        let mut entries: Vec<Listed> = Vec::new();
        let ghost all = as_listed(texts(paths@));
        for i in 0..paths.len()
            invariant
                all == as_listed(texts(paths@)),
                listed_rows(entries@) == all.take(i as int),
        {
            let ghost before = entries@;
            let e = Listed::Path(paths[i].clone());
            entries.push(e);
            assert(listed_rows(entries@) =~= listed_rows(before).push(e@));
            assert(listed_rows(entries@) =~= all.take(i + 1));
        }
        assert(all.take(all.len() as int) =~= all);
        proof {
            reveal_strlit("");
            assert(""@ =~= Seq::<char>::empty());
            let paths = texts(paths@);
            assert forall|p: Seq<char>| #[trigger] listed_in(all)(p) implies among(paths)(p) by {
                let k = choose|k: int| 0 <= k < all.len() && all[k] == ListedRow::Path(p);
                assert(paths[k] == p);
            }
            lemma_ready_on(*hands, self@, self@, among(paths), listed_in(all));
        }
        self.remove_all("", &entries, hands)
    }

    /// Deletes a single path through the same guard and with the same record. Tells whether the path
    /// was in fact deleted.
    pub fn remove_path<
        R: Fn(&str) -> Option<Node>,
        D: Fn(&str) -> Result<(), Failure>,
        E: Fn(&str) -> bool,
        N: Fn(&AuditEntry),
    >(&mut self, path: &str, hands: &Hands<R, D, E, N>) -> (r: bool)
        requires
            ready_on(*hands, old(self)@, only(path@)),
        ensures
            exists|t: Turn|
                #[trigger] is_turn(*hands, old(self)@, path, t) && final(self)@ == step(
                    old(self)@,
                    path@,
                    t,
                ).0 && r == (step(old(self)@, path@, t).1.deleted > 0 && !old(self)@.dry_run),
            noted(hands.note, old(self)@.audit, final(self)@.audit),
    {
        let stats = self.remove_one(path, hands);
        stats.deleted > 0 && !self.dry_run
    }
}

/// Paths as entries of a directory.
pub open spec fn as_listed(paths: Seq<Seq<char>>) -> Seq<ListedRow> {
    paths.map_values(|p: Seq<char>| ListedRow::Path(p))
}

// ---------------------------------------------------------------------------
// How an entry is deleted
// ---------------------------------------------------------------------------

/// How an entry is deleted.
#[derive(Clone, Copy, PartialEq, Eq, Debug, Structural)]
pub enum Removal {
    /// As a link, never what it leads to.
    Link,
    /// With everything below it.
    Tree,
    /// As a single file.
    File,
}

/// How an entry is deleted, by what it is: a link or other reparse point is never followed.
pub fn removal_of(link: bool, dir: bool) -> (r: Removal)
    ensures
        r == (if link {
            Removal::Link
        } else if dir {
            Removal::Tree
        } else {
            Removal::File
        }),
{
    if link {
        Removal::Link
    } else if dir {
        Removal::Tree
    } else {
        Removal::File
    }
}

/// The sentence that announces a possible request for administrator rights. Rights are asked for
/// only when the deletion of a Windows system cache is denied.
pub fn explain_elevation() -> (r: &'static str)
    ensures
        r@
            == "Windows system caches may need administrator permission; dpan will request UAC only if deletion is denied."@,
{
    "Windows system caches may need administrator permission; dpan will request UAC only if deletion is denied."
}

/// The command that deletes a path.
pub open spec fn removal_script(path: Seq<char>) -> Seq<char> {
    "Remove-Item -LiteralPath '"@ + doubled(path) + "' -Recurse -Force -ErrorAction Stop"@
}

/// The command that has another command run with administrator rights. It carries the other as
/// Base64 of UTF-16, so that no character of a path can change what is run.
pub open spec fn elevation_command(path: Seq<char>) -> Seq<char> {
    "$p=Start-Process powershell -Verb RunAs -Wait -PassThru -ArgumentList '-NoProfile','-EncodedCommand','"@
        + base64(utf16(removal_script(path))) + "'; exit $p.ExitCode"@
}

/// The command that deletes a path with administrator rights.
pub fn elevated_removal(path: &str) -> (r: String)
    ensures
        r@ == elevation_command(path@),
{
    let two: Vec<char> = vec!['\'', '\''];
    assert(two@ =~= seq!['\'', '\'']);
    let escaped = replace(chars_of(path).as_slice(), '\'', two.as_slice());
    let mut script = "Remove-Item -LiteralPath '".to_string();
    script.append(string_of(escaped.as_slice()).as_str());
    script.append("' -Recurse -Force -ErrorAction Stop");
    let bytes = utf16_bytes(chars_of(script.as_str()).as_slice());
    let encoded = base64_text(bytes.as_slice());
    let mut out =
        "$p=Start-Process powershell -Verb RunAs -Wait -PassThru -ArgumentList '-NoProfile','-EncodedCommand','".to_string();
    out.append(string_of(encoded.as_slice()).as_str());
    out.append("'; exit $p.ExitCode");
    out
}

// ---------------------------------------------------------------------------
// A second try
// ---------------------------------------------------------------------------

/// The statistics after the failed entries were tried again: what was freed, deleted and kept adds
/// up, while the failures are those of the second try.
pub open spec fn after_retry(first: StatsRow, retry: StatsRow) -> StatsRow {
    StatsRow {
        freed: held(first.freed + retry.freed),
        deleted: held_count(first.deleted + retry.deleted),
        skipped: held_count(first.skipped + retry.skipped),
        failed: retry.failed,
        failed_paths: retry.failed_paths,
        failure_reasons: retry.failure_reasons,
    }
}

impl CleanStats {
    /// Takes in the statistics of a second try at the failed entries.
    pub fn take_retry(&mut self, retry: CleanStats)
        ensures
            final(self)@ == after_retry(old(self)@, retry@),
    {
        self.freed = plus(self.freed, retry.freed);
        self.deleted = count_plus(self.deleted, retry.deleted);
        self.skipped = count_plus(self.skipped, retry.skipped);
        self.failed = retry.failed;
        self.failed_paths = retry.failed_paths;
        self.failure_reasons = retry.failure_reasons;
    }
}

// ---------------------------------------------------------------------------
// Laws
// ---------------------------------------------------------------------------

/// How many records tell of a deletion.
pub open spec fn removals(audit: Seq<AuditRow>) -> nat
    decreases audit.len(),
{
    if audit.len() == 0 {
        0
    } else {
        removals(audit.drop_last()) + (if audit.last().action == Action::Removed {
            1nat
        } else {
            0nat
        })
    }
}

proof fn lemma_removals_push(audit: Seq<AuditRow>, e: AuditRow)
    ensures
        removals(audit.push(e)) == removals(audit) + (if e.action == Action::Removed {
            1nat
        } else {
            0nat
        }),
{
    assert(audit.push(e).drop_last() =~= audit);
}

/// A dry run writes nothing to the audit log. (That it deletes nothing is what the precondition of
/// every method that deletes says: outside a dry run alone may the deletion be called.)
pub proof fn dry_run_records_nothing(
    c: CleanerRow,
    dir: Seq<char>,
    entries: Seq<ListedRow>,
    turns: Seq<Turn>,
)
    requires
        c.dry_run,
    ensures
        run(c, dir, entries, turns).0.audit == c.audit,
    decreases entries.len(),
{
    lemma_run_rules(c, dir, entries, turns);
    if entries.len() > 0 {
        lemma_run_rules(c, dir, entries.drop_last(), turns);
        dry_run_records_nothing(c, dir, entries.drop_last(), turns);
    }
}

/// In a dry run nothing may be deleted, whatever the path.
pub proof fn dry_run_deletes_nothing(c: CleanerRow, path: Seq<char>)
    requires
        c.dry_run,
    ensures
        !may_delete(c, path),
{
}

/// The statistics of a dry run and of a real run tell the same: nothing failed, and as much was
/// deleted, freed and kept.
pub open spec fn counts_alike(dry: StatsRow, done: StatsRow) -> bool {
    &&& dry.deleted == done.deleted
    &&& dry.freed == done.freed
    &&& dry.skipped == done.skipped
    &&& dry.failed == 0
}

/// Two runs were answered alike for an entry: its path has the same parts in both, and where the
/// guard lets it through, the same size was found.
pub open spec fn alike(s: SafetyRow, a: Turn, b: Turn) -> bool {
    &&& a.parts == b.parts
    &&& let_through(s, a.parts) ==> held(size_or_nothing(a.found)) == held(size_or_nothing(b.found))
}

/// Two runs over the same entries were answered alike.
pub open spec fn answered_alike(
    s: SafetyRow,
    entries: Seq<ListedRow>,
    a: Seq<Turn>,
    b: Seq<Turn>,
) -> bool {
    forall|i: int|
        0 <= i < entries.len() && (#[trigger] entries[i]) is Path ==> alike(s, a[i], b[i])
}

/// A dry run counts what a real run in which nothing fails deletes, frees and keeps, entry by entry and
/// for all of them together, where both are answered alike.
pub proof fn dry_run_counts_as_a_real_run(
    dry: CleanerRow,
    done: CleanerRow,
    dir: Seq<char>,
    entries: Seq<ListedRow>,
    dry_turns: Seq<Turn>,
    turns: Seq<Turn>,
)
    requires
        dry.dry_run,
        !done.dry_run,
        dry.safety == done.safety,
        answered_alike(done.safety, entries, dry_turns, turns),
        run(done, dir, entries, turns).1.failed == 0,
    ensures
        counts_alike(
            run(dry, dir, entries, dry_turns).1,
            run(done, dir, entries, turns).1,
        ),
    decreases entries.len(),
{
    if entries.len() > 0 {
        let front = entries.drop_last();
        assert(answered_alike(done.safety, front, dry_turns, turns)) by {
            assert forall|i: int|
                0 <= i < front.len() && (#[trigger] front[i]) is Path implies alike(
                done.safety,
                dry_turns[i],
                turns[i],
            ) by {
                assert(front[i] == entries[i]);
            }
        }
        assert(run(done, dir, front, turns).1.failed == 0);
        dry_run_counts_as_a_real_run(dry, done, dir, front, dry_turns, turns);
        lemma_run_rules(dry, dir, front, dry_turns);
        lemma_run_rules(done, dir, front, turns);
        let n = entries.len() - 1;
        assert(entries[n] == entries.last());
    }
}

/// What is on the disk, and how the platform reads paths.
pub struct World {
    /// Whether a directory is itself a link.
    pub links: spec_fn(Seq<char>) -> bool,
    /// What is in a directory; nothing where it cannot be read.
    pub lists: spec_fn(Seq<char>) -> Option<Seq<ListedRow>>,
    /// The size of what is at a path.
    pub sizes: spec_fn(Seq<char>) -> nat,
    /// The main separator of the platform.
    pub separator: char,
    /// Whether the platform takes `/` alone for absolute.
    pub slash: bool,
}

/// The outside functions tell what is on the disk, whenever they are called.
pub open spec fn tells<
    R: Fn(&str) -> Option<Node>,
    K: Fn(&str) -> bool,
    L: Fn(&str) -> Option<Vec<Listed>>,
>(read: R, is_link: K, list: L, w: World) -> bool {
    &&& forall|p: &str, n: Option<Node>| #[trigger]
        call_ensures(read, (p,), n) ==> size_or_nothing(n) == (w.sizes)(p@)
    &&& forall|p: &str, b: bool| #[trigger] call_ensures(is_link, (p,), b) ==> b == (w.links)(p@)
    &&& forall|p: &str, v: Option<Vec<Listed>>| #[trigger]
        call_ensures(list, (p,), v) ==> listed_opt(v) == (w.lists)(p@)
}

/// What reading a directory gave, as mathematical data.
pub open spec fn listed_opt(v: Option<Vec<Listed>>) -> Option<Seq<ListedRow>> {
    match v {
        Some(v) => Some(listed_rows(v@)),
        None => None,
    }
}

/// The parts in the answers are those that the platform reads.
pub open spec fn parts_by(w: World, course: Course) -> bool {
    course matches Course::Entries(entries, turns) ==> forall|i: int|
        0 <= i < entries.len() ==> read_by(w, (#[trigger] turns[i]).parts)
}

/// The platform reads the row in its text.
pub open spec fn read_by(w: World, p: PathRow) -> bool {
    &&& p.parts == path_parts(w.separator, p.text)
    &&& p.absolute == path_absolute(w.separator, w.slash, p.text)
}

/// Of two turns of one path, each answered as the world is, the second is answered like the first.
proof fn lemma_alike<
    R: Fn(&str) -> Option<Node>,
    D: Fn(&str) -> Result<(), Failure>,
    E: Fn(&str) -> bool,
    N: Fn(&AuditEntry),
    K: Fn(&str) -> bool,
    L: Fn(&str) -> Option<Vec<Listed>>,
>(
    h: Hands<R, D, E, N>,
    is_link: K,
    list: L,
    w: World,
    dry: CleanerRow,
    done: CleanerRow,
    entry: ListedRow,
    a: Turn,
    b: Turn,
)
    requires
        tells(h.read, is_link, list, w),
        dry.safety == done.safety,
        entry is Path,
        turn_fits(h, dry, entry, a),
        turn_fits(h, done, entry, b),
        read_by(w, a.parts),
        read_by(w, b.parts),
    ensures
        alike(done.safety, a, b),
{
    if let ListedRow::Path(path) = entry {
        let p = choose|p: &str| p@ == path && #[trigger] is_turn(h, dry, p, a);
        let q = choose|q: &str| q@ == path && #[trigger] is_turn(h, done, q, b);
        assert(is_turn(h, dry, p, a) && is_turn(h, done, q, b));
        assert(a.parts.text == path && b.parts.text == path);
    }
}

/// A dry run of a target counts what a real run of it in which nothing fails deletes, frees and keeps,
/// and records nothing: whatever the courses of the two calls, as long as the outside functions answer
/// both as one and the same world is.
pub proof fn dry_targets_count_as_real_ones<
    R: Fn(&str) -> Option<Node>,
    D: Fn(&str) -> Result<(), Failure>,
    E: Fn(&str) -> bool,
    N: Fn(&AuditEntry),
    K: Fn(&str) -> bool,
    L: Fn(&str) -> Option<Vec<Listed>>,
>(
    h: Hands<R, D, E, N>,
    is_link: K,
    list: L,
    w: World,
    dry: CleanerRow,
    done: CleanerRow,
    dry_path: &str,
    path: &str,
    mode: Mode,
    dry_course: Course,
    course: Course,
)
    requires
        tells(h.read, is_link, list, w),
        dry.dry_run,
        !done.dry_run,
        dry.safety == done.safety,
        dry_path@ == path@,
        is_course(h, dry, is_link, list, dry_path, mode, dry_course),
        is_course(h, done, is_link, list, path, mode, course),
        parts_by(w, dry_course),
        parts_by(w, course),
        cleaned(done, path@, course).1.failed == 0,
    ensures
        counts_alike(
            cleaned(dry, path@, dry_course).1,
            cleaned(done, path@, course).1,
        ),
        cleaned(dry, path@, dry_course).0.audit == dry.audit,
{
    if let Course::Entries(entries, turns) = course {
        if mode == Mode::Contents {
            let v = choose|v: Vec<Listed>|
                listed_rows(v@) == entries && #[trigger] call_ensures(list, (path,), Some(v));
            assert(listed_opt(Some(v)) == (w.lists)(path@));
        }
        assert(dry_course is Entries);
        if let Course::Entries(dry_entries, dry_turns) = dry_course {
            if mode == Mode::Contents {
                let v = choose|v: Vec<Listed>|
                    listed_rows(v@) == dry_entries && #[trigger] call_ensures(
                        list,
                        (dry_path,),
                        Some(v),
                    );
                assert(listed_opt(Some(v)) == (w.lists)(path@));
            }
            assert(dry_entries == entries);
            assert forall|i: int| 0 <= i < entries.len() && (#[trigger] entries[i]) is Path implies alike(
                done.safety,
                dry_turns[i],
                turns[i],
            ) by {
                assert(turn_fits(h, dry, entries[i], dry_turns[i]));
                assert(turn_fits(h, done, entries[i], turns[i]));
                lemma_alike(
                    h,
                    is_link,
                    list,
                    w,
                    dry,
                    done,
                    entries[i],
                    dry_turns[i],
                    turns[i],
                );
            }
            dry_run_counts_as_a_real_run(dry, done, path@, entries, dry_turns, turns);
            dry_run_records_nothing(dry, path@, dry_entries, dry_turns);
        }
    }
}

/// The records of the first turns, in order: one for every attempt to delete.
pub open spec fn records(c: CleanerRow, entries: Seq<ListedRow>, turns: Seq<Turn>) -> Seq<AuditRow>
    decreases entries.len(),
{
    if entries.len() == 0 {
        seq![]
    } else {
        let sofar = records(c, entries.drop_last(), turns);
        match entries.last() {
            ListedRow::Path(p) => match record_of(c, p, turns[entries.len() - 1]) {
                Some(e) => sofar.push(e),
                None => sofar,
            },
            ListedRow::Unreadable(_) => sofar,
        }
    }
}

/// Every attempt to delete is recorded in its turn, and nothing else: the audit log grows by exactly the
/// records of the turns.
pub proof fn every_attempt_is_recorded(
    c: CleanerRow,
    dir: Seq<char>,
    entries: Seq<ListedRow>,
    turns: Seq<Turn>,
)
    ensures
        run(c, dir, entries, turns).0.audit == c.audit + records(c, entries, turns),
    decreases entries.len(),
{
    if entries.len() > 0 {
        let front = entries.drop_last();
        every_attempt_is_recorded(c, dir, front, turns);
        lemma_run_rules(c, dir, front, turns);
        let sofar = records(c, front, turns);
        if let ListedRow::Path(p) = entries.last() {
            if let Some(e) = record_of(c, p, turns[entries.len() - 1]) {
                assert(c.audit + sofar.push(e) =~= (c.audit + sofar).push(e));
            }
        }
    } else {
        assert(c.audit + records(c, entries, turns) =~= c.audit);
    }
}

/// Nothing may be deleted that the guard refuses, however the platform reads the path.
pub proof fn refused_paths_are_never_deleted(c: CleanerRow, path: Seq<char>)
    requires
        forall|p: PathRow|
            #[trigger] reads_as(path, p) ==> whitelisted(c.safety, p) || refusal(c.safety, p) is Some,
    ensures
        !may_delete(c, path),
{
}

/// Outside a dry run the statistics agree with the audit log: there are as many new records of
/// deletions as the statistics count.
pub proof fn counted_deletions_are_recorded(
    c: CleanerRow,
    dir: Seq<char>,
    entries: Seq<ListedRow>,
    turns: Seq<Turn>,
)
    requires
        !c.dry_run,
        entries.len() <= usize::MAX,
    ensures
        removals(run(c, dir, entries, turns).0.audit) == removals(c.audit) + run(
            c,
            dir,
            entries,
            turns,
        ).1.deleted,
    decreases entries.len(),
{
    if entries.len() > 0 {
        let front = entries.drop_last();
        counted_deletions_are_recorded(c, dir, front, turns);
        lemma_run_rules(c, dir, front, turns);
        every_entry_is_accounted_for(c, dir, front, turns);
        let (mid, sofar) = run(c, dir, front, turns);
        match entries.last() {
            ListedRow::Path(p) => {
                let t = turns[entries.len() - 1];
                let (end, one) = step(mid, p, t);
                if end.audit != mid.audit {
                    lemma_removals_push(mid.audit, end.audit.last());
                }
            },
            ListedRow::Unreadable(e) => {},
        }
    }
}

/// Every entry is either deleted, kept or failed, and exactly one of these.
pub proof fn every_entry_is_accounted_for(
    c: CleanerRow,
    dir: Seq<char>,
    entries: Seq<ListedRow>,
    turns: Seq<Turn>,
)
    requires
        entries.len() <= usize::MAX,
    ensures
        ({
            let s = run(c, dir, entries, turns).1;
            s.deleted + s.failed + s.skipped == entries.len()
        }),
    decreases entries.len(),
{
    if entries.len() > 0 {
        every_entry_is_accounted_for(c, dir, entries.drop_last(), turns);
    }
}

/// The audit log only grows: what was recorded stays.
pub proof fn records_are_kept(
    c: CleanerRow,
    dir: Seq<char>,
    entries: Seq<ListedRow>,
    turns: Seq<Turn>,
)
    ensures
        c.audit.is_prefix_of(run(c, dir, entries, turns).0.audit),
    decreases entries.len(),
{
    if entries.len() > 0 {
        records_are_kept(c, dir, entries.drop_last(), turns);
    }
}

/// The command that is run with administrator rights is exactly the deletion of the path: what the
/// launcher carries decodes to the script, and the literal in the script reads as the path, whatever
/// characters the path has.
pub proof fn elevation_carries_the_path(path: Seq<char>)
    ensures
        crate::encode::base64_read(base64(utf16(removal_script(path)))) == Some(
            utf16(removal_script(path)),
        ),
        crate::encode::utf16_read(utf16(removal_script(path))) == Some(removal_script(path)),
        crate::encode::quoted_read(
            removal_script(path).skip("Remove-Item -LiteralPath '"@.len() as int),
        ) == Some(path),
{
    crate::encode::base64_reads_back(utf16(removal_script(path)));
    crate::encode::utf16_reads_back(removal_script(path));
    let front = "Remove-Item -LiteralPath '"@;
    let tail = "' -Recurse -Force -ErrorAction Stop"@;
    let behind = tail.skip(1);
    reveal_strlit("' -Recurse -Force -ErrorAction Stop");
    assert(tail[0] == '\'');
    assert(behind[0] == ' ');
    crate::encode::quoting_reads_back(path, behind);
    assert(removal_script(path).skip(front.len() as int) =~= doubled(path) + seq!['\'']
        + behind);
}

/// Nothing is deleted through a link: whatever it leads to, a link is removed as a link, and only a
/// directory that is none is removed with what is below it.
pub proof fn links_are_never_followed(link: bool, dir: bool, r: Removal)
    requires
        call_ensures(removal_of, (link, dir), r),
    ensures
        link <==> r == Removal::Link,
        r == Removal::Tree <==> dir && !link,
        r == Removal::File <==> !dir && !link,
{
}

/// What one turn comes to. An entry that the guard lets through is deleted and counted with its size,
/// and recorded, where the deletion worked; where it failed, it is told with its path; a dry run counts
/// it and records nothing. An entry that the guard does not let through is kept, counted as kept, and
/// nothing is recorded.
pub proof fn turns_count_what_happened(c: CleanerRow, path: Seq<char>, t: Turn)
    ensures
        ({
            let (end, one) = step(c, path, t);
            let size = held(size_or_nothing(t.found));
            let let_in = !whitelisted(c.safety, t.parts) && refusal(c.safety, t.parts) is None;
            let gone = t.outcome is Ok || (c.windows && c.allow_elevation && t.outcome is Err
                && t.outcome->Err_0.kind == FailureKind::PermissionDenied && t.elevated);
            &&& one.deleted + one.failed + one.skipped == 1
            &&& one.skipped == 1 <==> !let_in
            &&& one.deleted == 1 <==> let_in && (c.dry_run || gone)
            &&& one.failed == 1 <==> let_in && !c.dry_run && !gone
            &&& one.freed == (if one.deleted == 1 {
                size
            } else {
                0
            })
            &&& one.failed == 1 ==> one.failed_paths == seq![path]
            &&& one.failed == 0 ==> one.failed_paths.len() == 0 && one.failure_reasons.len() == 0
            &&& !let_in || c.dry_run ==> end.audit == c.audit
            &&& let_in && !c.dry_run && gone ==> end.audit == c.audit.push(
                AuditRow { action: Action::Removed, size: size as u64, path },
            )
            &&& let_in && !c.dry_run && !gone ==> end.audit == c.audit.push(
                AuditRow { action: Action::Failed, size: 0, path },
            )
            &&& same_rules(c, end)
        }),
{
}

/// Statistics add up, each number by itself, as far as the machine can count, and the failures of both are
/// told in order.
pub proof fn statistics_add_up(a: StatsRow, b: StatsRow)
    requires
        a.freed + b.freed <= u64::MAX,
        a.deleted + b.deleted <= usize::MAX,
        a.failed + b.failed <= usize::MAX,
        a.skipped + b.skipped <= usize::MAX,
    ensures
        merged(a, b).freed == a.freed + b.freed,
        merged(a, b).deleted == a.deleted + b.deleted,
        merged(a, b).failed == a.failed + b.failed,
        merged(a, b).skipped == a.skipped + b.skipped,
        merged(a, b).failed_paths == a.failed_paths + b.failed_paths,
        merged(a, b).failure_reasons == a.failure_reasons + b.failure_reasons,
        after_retry(a, b).freed == a.freed + b.freed,
        after_retry(a, b).deleted == a.deleted + b.deleted,
        after_retry(a, b).skipped == a.skipped + b.skipped,
        after_retry(a, b).failed == b.failed,
        after_retry(a, b).failed_paths == b.failed_paths,
        after_retry(a, b).failure_reasons == b.failure_reasons,
{
}

/// The audit log lies in the user's local data, and where there is none, below their home; what tells
/// deletions and failures apart in it are two words.
pub proof fn the_log_is_the_users_own(env: Env)
    ensures
        env("LOCALAPPDATA"@) matches Some(dir) ==> log_pieces(env) == Some(
            seq![dir, "dustpan"@, "operations.log"@],
        ),
        env("LOCALAPPDATA"@) is None ==> (env("HOME"@) matches Some(home) ==> log_pieces(env)
            is Some && log_pieces(env)->0.len() == 5 && log_pieces(env)->0[0] == home
            && log_pieces(env)->0.last() == "operations.log"@),
        env("LOCALAPPDATA"@) is None && env("HOME"@) is None ==> log_pieces(env) is None,
        action_word(Action::Removed) != action_word(Action::Failed),
{
    reveal_strlit("REMOVED");
    reveal_strlit("FAILED");
    assert("REMOVED"@.len() == 7 && "FAILED"@.len() == 6);
}

/// An entry that the guard lets through, and whose deletion works, has its record among those of the run.
pub proof fn attempts_have_their_record(
    c: CleanerRow,
    entries: Seq<ListedRow>,
    turns: Seq<Turn>,
    k: int,
    path: Seq<char>,
) -> (i: int)
    requires
        !c.dry_run,
        0 <= k < entries.len(),
        entries[k] == ListedRow::Path(path),
        let_through(c.safety, turns[k].parts),
        turns[k].outcome is Ok,
    ensures
        0 <= i < records(c, entries, turns).len(),
        records(c, entries, turns)[i] == (AuditRow {
            action: Action::Removed,
            size: held(size_or_nothing(turns[k].found)) as u64,
            path,
        }),
    decreases entries.len(),
{
    let front = entries.drop_last();
    let sofar = records(c, front, turns);
    if k < entries.len() - 1 {
        assert(front[k] == entries[k]);
        attempts_have_their_record(c, front, turns, k, path)
    } else {
        assert(entries.last() == entries[k]);
        sofar.len() as int
    }
}

/// A directory that is itself a link is left alone: it counts as kept, and nothing is recorded; one that
/// cannot be read counts as a failure.
pub proof fn linked_directories_are_left_alone(c: CleanerRow, path: Seq<char>)
    ensures
        cleaned(c, path, Course::Link).0.audit == c.audit,
        cleaned(c, path, Course::Link).1.skipped == 1,
        cleaned(c, path, Course::Link).1.deleted == 0,
        cleaned(c, path, Course::Link).1.failed == 0,
        cleaned(c, path, Course::Unreadable).0.audit == c.audit,
        cleaned(c, path, Course::Unreadable).1.failed == 1,
        cleaned(c, path, Course::Unreadable).1.deleted == 0,
        cleaned(c, path, Course::Unreadable).1.failed_paths.len() == 0,
{
}

} // verus!
