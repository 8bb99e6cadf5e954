//! A cleaning session: what is shown, what is asked, and what happens next, from the targets that were
//! found to the report at the end.

use vstd::prelude::*;

use crate::clean::{
    cleaned, counts_alike, explain_elevation, is_course, lemma_noted, lemma_ready_for, may_delete,
    merged, no_stats, noted, parts_by, ready_for, same_rules, tells, AuditEntry, CleanStats, Cleaner,
    CleanerRow, Course, Failure, Hands, Listed, StatsRow, World,
};
use crate::cli::{Options, OptionsRow};
use crate::number::{
    align_left, align_right, decimal, decimal_of, decimal_reads_back, left_aligned, parse_usize, parsed_number,
    right_aligned,
};
use crate::plan::{
    measured, total_size, with_optional, CleanPlan, PlanRow, PlannedRow, PlannedTarget,
};
use crate::scan::{held, Node};
use crate::settings::{Settings, SettingsRow};
use crate::targets::{
    all_categories, metadata_of, resolved_rows, Category, MetadataRow, ResolvedRow, ResolvedTarget,
    Risk,
};
use crate::text::{
    ascii_lower, copy, join, joined, lower_ascii, nonempty, rows, same_str, split_by, text_opt,
    texts, trim_str, trimmed,
};
use crate::ui::{fmt_size, painted, size_text, Style};

verus! {

/// What a session does next.
#[derive(Clone, Copy, PartialEq, Eq, Debug, Structural)]
pub enum Next {
    /// The session ends, well or with problems.
    End(bool),
    /// The targets are to be read.
    Measure,
    /// The user is to choose among the optional targets.
    AskOptional,
    /// The plan is to be shown.
    Show,
    /// The user is to agree to the cleaning.
    AskProceed,
    /// It is to be seen which programs run, and with what rights.
    Prepare,
    /// The user is to agree although programs run.
    AskRunning,
    /// The targets are to be cleaned.
    Clean,
    /// The user is to say whether what failed is tried again.
    AskRetry,
    /// What failed is to be tried again.
    Retry,
    /// The report is to be shown.
    Report,
    /// The recycle bin is to be emptied.
    EmptyBin,
}

/// What is shown, and what happens next.
pub struct Turned {
    pub text: String,
    pub next: Next,
}

/// What is shown, and what happens next, as mathematical data.
pub struct TurnedRow {
    pub text: Seq<char>,
    pub next: Next,
}

impl View for Turned {
    type V = TurnedRow;

    open spec fn view(&self) -> TurnedRow {
        TurnedRow { text: self.text@, next: self.next }
    }
}

fn none() -> (r: String)
    ensures
        r@ == Seq::<char>::empty(),
{
    let r = String::new();
    assert(r@ =~= Seq::<char>::empty());
    r
}

// ---------------------------------------------------------------------------
// What was found
// ---------------------------------------------------------------------------

/// Why a target is cleaned by default, or only on request.
pub open spec fn policy_of(m: MetadataRow) -> Seq<char> {
    if m.risk == Risk::Low && !m.expensive {
        "smart default"@
    } else if m.expensive {
        "optional: high re-download cost"@
    } else {
        "optional: review required"@
    }
}

/// The row of a target.
pub open spec fn target_line(t: ResolvedRow, on: bool) -> Seq<char> {
    "  "@ + left_aligned(t.name, 28) + " "@ + left_aligned(
        painted(on, "33"@, policy_of(metadata_of(t))),
        34,
    ) + " "@ + painted(on, "2"@, t.path) + "\n"@
}

/// The rows of the targets of a category.
pub open spec fn target_lines(s: Seq<ResolvedRow>, c: Category, on: bool) -> Seq<char>
    decreases s.len(),
{
    if s.len() == 0 {
        seq![]
    } else {
        target_lines(s.drop_last(), c, on) + (if s.last().category == c {
            target_line(s.last(), on)
        } else {
            seq![]
        })
    }
}

/// A target of the category was found.
pub open spec fn has_target(s: Seq<ResolvedRow>, c: Category) -> bool {
    exists|i: int| 0 <= i < s.len() && (#[trigger] s[i]).category == c
}

/// The part of a category.
pub open spec fn target_part(s: Seq<ResolvedRow>, c: Category, on: bool) -> Seq<char> {
    if has_target(s, c) {
        painted(on, "1"@, painted(on, "36"@, c.label_text())) + "\n"@ + target_lines(s, c, on)
    } else {
        seq![]
    }
}

/// The parts of the first categories.
pub open spec fn target_parts(s: Seq<ResolvedRow>, on: bool, n: int) -> Seq<char>
    decreases n,
{
    if n <= 0 {
        seq![]
    } else {
        target_parts(s, on, n - 1) + target_part(s, all_categories()[n - 1], on)
    }
}

fn render_target(t: &ResolvedTarget, style: &Style) -> (r: String)
    ensures
        r@ == target_line(t@, style.on),
{
    let m = t.metadata();
    let policy = if matches!(m.risk, Risk::Low) && !m.expensive {
        "smart default"
    } else if m.expensive {
        "optional: high re-download cost"
    } else {
        "optional: review required"
    };
    let mut out = "  ".to_string();
    out.append(align_left(t.name, 28).as_str());
    out.append(" ");
    out.append(align_left(style.yellow(policy).as_str(), 34).as_str());
    out.append(" ");
    out.append(style.dim(t.path.as_str()).as_str());
    out.append("\n");
    out
}

fn heading(c: Category, style: &Style) -> (r: String)
    ensures
        r@ == painted(style.on, "1"@, painted(style.on, "36"@, c.label_text())),
{
    let inner = style.cyan(c.label());
    style.bold(inner.as_str())
}

/// The targets that were found, category by category.
pub fn print_target_list(found: &Vec<ResolvedTarget>, style: &Style) -> (r: String)
    ensures
        r@ == target_parts(resolved_rows(found@), style.on, 5),
{
    let cats = Category::ALL;
    assert(cats@ =~= all_categories());
    let ghost all = resolved_rows(found@);
    let mut out = none();
    for k in 0..5
        invariant
            cats@ == all_categories(),
            all == resolved_rows(found@),
            out@ == target_parts(all, style.on, k as int),
    {
        let c = cats[k];
        let mut used = false;
        let mut list = none();
        assert(all.take(0) =~= Seq::<ResolvedRow>::empty());
        for i in 0..found.len()
            invariant
                all == resolved_rows(found@),
                list@ == target_lines(all.take(i as int), c, style.on),
                used == exists|j: int| 0 <= j < i && (#[trigger] all[j]).category == c,
        {
            assert(all.take(i + 1).drop_last() =~= all.take(i as int));
            assert(all.take(i + 1).last() == found@[i as int]@);
            assert(all[i as int] == found@[i as int]@);
            let row = if found[i].category == c {
                used = true;
                render_target(&found[i], style)
            } else {
                none()
            };
            list.append(row.as_str());
        }
        assert(all.take(all.len() as int) =~= all);
        let part = if used {
            let mut s = heading(c, style);
            s.append("\n");
            s.append(list.as_str());
            s
        } else {
            none()
        };
        out.append(part.as_str());
    }
    out
}

/// How a session opens.
pub open spec fn opening(p: PlanRow, o: OptionsRow, windows: bool, on: bool) -> TurnedRow {
    let found = crate::plan::rows_of(p.targets) + crate::plan::rows_of(p.optional);
    if found.len() == 0 && !o.recycle_bin {
        TurnedRow {
            text: "No cleanable targets found on this system.\n"@ + (if windows {
                seq![]
            } else {
                painted(
                    on,
                    "2"@,
                    "(dpan targets Windows paths; nothing resolves on this OS)"@,
                ) + "\n"@
            }),
            next: Next::End(true),
        }
    } else if o.list {
        TurnedRow { text: target_parts(found, on, 5), next: Next::End(true) }
    } else {
        TurnedRow {
            text: painted(on, "1"@, "dpan clean"@) + " "@ + (if o.dry_run {
                painted(on, "33"@, "(dry run)"@)
            } else {
                seq![]
            }) + "\n"@ + painted(on, "2"@, "scanning..."@) + "\n"@,
            next: Next::Measure,
        }
    }
}

/// Opens a session.
pub fn open_session(plan: &CleanPlan, opts: &Options, windows: bool, style: &Style) -> (r: Turned)
    ensures
        r@ == opening(plan@, opts@, windows, style.on),
{
    let found = plan.all_resolved();
    assert(resolved_rows(found@).len() == found@.len());
    if found.len() == 0 && !opts.recycle_bin {
        let mut text = "No cleanable targets found on this system.\n".to_string();
        let more = if windows {
            none()
        } else {
            let mut s = style.dim("(dpan targets Windows paths; nothing resolves on this OS)");
            s.append("\n");
            s
        };
        text.append(more.as_str());
        return Turned { text, next: Next::End(true) };
    }
    if opts.list {
        return Turned { text: print_target_list(&found, style), next: Next::End(true) };
    }
    let mut text = style.bold("dpan clean");
    text.append(" ");
    let dry = if opts.dry_run {
        style.yellow("(dry run)")
    } else {
        none()
    };
    text.append(dry.as_str());
    text.append("\n");
    text.append(style.dim("scanning...").as_str());
    text.append("\n");
    Turned { text, next: Next::Measure }
}

// ---------------------------------------------------------------------------
// Optional targets
// ---------------------------------------------------------------------------

/// The places of the optional targets that hold something.
pub open spec fn choices_of(optional: Seq<PlannedRow>) -> Seq<usize>
    decreases optional.len(),
{
    if optional.len() == 0 {
        seq![]
    } else {
        let front = choices_of(optional.drop_last());
        if optional.last().size > 0 {
            front.push((optional.len() - 1) as usize)
        } else {
            front
        }
    }
}

/// Why a target is optional.
pub open spec fn choice_reason(m: MetadataRow) -> Seq<char> {
    if m.expensive {
        "high re-download cost"@
    } else if m.requires_admin {
        "needs administrator permission"@
    } else {
        "needs review"@
    }
}

/// The row of an optional target.
pub open spec fn choice_line(i: int, p: PlannedRow, on: bool) -> Seq<char> {
    "  "@ + right_aligned(decimal((i + 1) as nat), 2) + ". "@ + left_aligned(p.target.name, 28) + " "@
        + right_aligned(size_text(p.size as nat), 10) + "  "@ + painted(
        on,
        "33"@,
        choice_reason(p.metadata),
    ) + "\n"@
}

pub open spec fn choice_lines(
    optional: Seq<PlannedRow>,
    choices: Seq<usize>,
    on: bool,
    n: int,
) -> Seq<char>
    decreases n,
{
    if n <= 0 {
        seq![]
    } else {
        choice_lines(optional, choices, on, n - 1) + choice_line(
            n - 1,
            optional[choices[n - 1] as int],
            on,
        )
    }
}

/// What is shown of the optional targets, and whether the user chooses: consent given beforehand, and
/// output or input that is no terminal, leave them out.
pub open spec fn optional_turn(
    optional: Seq<PlannedRow>,
    yes: bool,
    interactive: bool,
    on: bool,
) -> TurnedRow {
    let choices = choices_of(optional);
    if choices.len() == 0 {
        TurnedRow { text: seq![], next: Next::Show }
    } else {
        let list = "\n"@ + painted(on, "1"@, "Additional caches found (not selected)"@) + "\n"@
            + painted(
            on,
            "2"@,
            "These are safe to inspect, but may be slow or expensive to download again."@,
        ) + "\n"@ + choice_lines(optional, choices, on, choices.len() as int);
        if yes || !interactive {
            TurnedRow {
                text: list + painted(on, "2"@, "Skipped by Smart Clean."@) + "\n"@,
                next: Next::Show,
            }
        } else {
            TurnedRow {
                text: list + "Select caches to include (e.g. 1,3 or all; Enter skips): "@,
                next: Next::AskOptional,
            }
        }
    }
}

fn choices_in(optional: &Vec<PlannedTarget>) -> (r: Vec<usize>)
    ensures
        r@ == choices_of(crate::plan::planned_rows(optional@)),
        forall|i: int| 0 <= i < r@.len() ==> #[trigger] r@[i] < optional@.len(),
{
    let ghost all = crate::plan::planned_rows(optional@);
    let mut out: Vec<usize> = Vec::new();
    assert(all.take(0) =~= Seq::<PlannedRow>::empty());
    for i in 0..optional.len()
        invariant
            all == crate::plan::planned_rows(optional@),
            out@ == choices_of(all.take(i as int)),
            forall|k: int| 0 <= k < out@.len() ==> #[trigger] out@[k] < i,
    {
        assert(all.take(i + 1).drop_last() =~= all.take(i as int));
        assert(all.take(i + 1).last() == optional@[i as int]@);
        if optional[i].size > 0 {
            out.push(i);
        }
    }
    assert(all.take(all.len() as int) =~= all);
    out
}

/// Takes in what was read at the paths of the targets, and shows the optional ones.
pub fn take_sizes(
    plan: &mut CleanPlan,
    entries: &Vec<Option<Node>>,
    yes: bool,
    interactive: bool,
    style: &Style,
) -> (r: Turned)
    requires
        entries@.len() == old(plan).targets@.len() + old(plan).optional@.len(),
    ensures
        final(plan)@ == (PlanRow {
            targets: measured(old(plan)@.targets, entries@, 0),
            optional: measured(
                old(plan)@.optional,
                entries@,
                old(plan)@.targets.len() as int,
            ),
        }),
        r@ == optional_turn(final(plan)@.optional, yes, interactive, style.on),
{
    plan.preview(entries);
    let choices = choices_in(&plan.optional);
    if choices.len() == 0 {
        return Turned { text: none(), next: Next::Show };
    }
    let ghost all = plan@.optional;
    let mut list = none();
    for i in 0..choices.len()
        invariant
            all == crate::plan::planned_rows(plan.optional@),
            forall|k: int| 0 <= k < choices@.len() ==> #[trigger] choices@[k] < plan.optional@.len(),
            list@ == choice_lines(all, choices@, style.on, i as int),
    {
        let p = &plan.optional[choices[i]];
        assert(all[choices@[i as int] as int] == p@);
        let reason = if p.metadata.expensive {
            "high re-download cost"
        } else if p.metadata.requires_admin {
            "needs administrator permission"
        } else {
            "needs review"
        };
        let mut row = "  ".to_string();
        row.append(align_right(decimal_of(i as u64 + 1).as_str(), 2).as_str());
        row.append(". ");
        row.append(align_left(p.target.name, 28).as_str());
        row.append(" ");
        row.append(align_right(fmt_size(p.size).as_str(), 10).as_str());
        row.append("  ");
        row.append(style.yellow(reason).as_str());
        row.append("\n");
        list.append(row.as_str());
    }
    let mut text = "\n".to_string();
    text.append(style.bold("Additional caches found (not selected)").as_str());
    text.append("\n");
    text.append(
        style.dim(
            "These are safe to inspect, but may be slow or expensive to download again.",
        ).as_str(),
    );
    text.append("\n");
    text.append(list.as_str());
    if yes || !interactive {
        text.append(style.dim("Skipped by Smart Clean.").as_str());
        text.append("\n");
        Turned { text, next: Next::Show }
    } else {
        text.append("Select caches to include (e.g. 1,3 or all; Enter skips): ");
        Turned { text, next: Next::AskOptional }
    }
}

/// Characters that part the numbers of an answer.
pub open spec fn parts_numbers() -> spec_fn(char) -> bool {
    |c: char| c == ',' || c == ' ' || c == ';'
}

/// The place in the list that a piece of an answer names, if it names one.
pub open spec fn named_place(piece: Seq<char>, count: int) -> Option<int> {
    match parsed_number(piece, usize::MAX as nat) {
        Some(n) => if 1 <= n <= count {
            Some(n - 1)
        } else {
            None
        },
        None => None,
    }
}

/// The optional targets that the pieces of an answer name, as places in the plan.
pub open spec fn named_places(pieces: Seq<Seq<char>>, choices: Seq<usize>) -> Seq<usize>
    decreases pieces.len(),
{
    if pieces.len() == 0 {
        seq![]
    } else {
        let front = named_places(pieces.drop_last(), choices);
        match named_place(pieces.last(), choices.len() as int) {
            Some(k) => front.push(choices[k]),
            None => front,
        }
    }
}

/// The optional targets that an answer chooses, as places in the plan: all of them, or those whose
/// numbers it lists. The numbers are those of the list that was shown, which leaves out what holds
/// nothing.
pub open spec fn answered(answer: Seq<char>, choices: Seq<usize>) -> Seq<usize> {
    let a = trimmed(answer);
    if a.len() == 0 {
        seq![]
    } else if ascii_lower(a) == "all"@ {
        choices
    } else {
        named_places(nonempty(split_by(a, parts_numbers())), choices)
    }
}

fn number_pieces(s: &[char]) -> (r: Vec<Vec<char>>)
    ensures
        rows(r@) == nonempty(split_by(s@, parts_numbers())),
{
    broadcast use crate::text::lemma_rows_push;

    let ghost sep = parts_numbers();
    let ghost mut all: Seq<Seq<char>> = seq![];
    let mut out: Vec<Vec<char>> = Vec::new();
    let mut i: usize = 0;
    assert(s@.skip(0) =~= s@);
    assert(rows(out@) =~= nonempty(all)) by {
        reveal(Seq::filter);
    }
    assert(all + split_by(s@, sep) =~= split_by(s@, sep));
    loop
        invariant
            0 <= i <= s@.len(),
            sep == parts_numbers(),
            rows(out@) == nonempty(all),
            split_by(s@, sep) == all + split_by(s@.skip(i as int), sep),
        decreases s@.len() - i,
    {
        let mut k: usize = i;
        while k < s.len() && s[k] != ',' && s[k] != ' ' && s[k] != ';'
            invariant
                i <= k <= s@.len(),
                sep == parts_numbers(),
                forall|j: int| i <= j < k ==> !sep(#[trigger] s@[j]),
            decreases s@.len() - k,
        {
            k = k + 1;
        }
        proof {
            crate::text::lemma_split_step(s@, sep, i as int, k as int);
        }
        let ghost piece = s@.subrange(i as int, k as int);
        let ghost before = all;
        proof {
            all = all.push(piece);
            assert(all =~= before + seq![piece]);
            before.lemma_filter_push(piece, |w: Seq<char>| w.len() > 0);
        }
        if k > i {
            out.push(copy(vstd::slice::slice_subrange(s, i, k)));
        }
        assert(rows(out@) =~= nonempty(all));
        if k >= s.len() {
            return out;
        }
        assert(split_by(s@, sep) =~= all + split_by(s@.skip(k + 1), sep));
        i = k + 1;
    }
}

fn read_answer(answer: &str, choices: &Vec<usize>) -> (r: Vec<usize>)
    ensures
        r@ == answered(answer@, choices@),
{
    let a = trim_str(answer);
    let mut out: Vec<usize> = Vec::new();
    assert(out@ =~= Seq::<usize>::empty());
    if a.len() == 0 {
        return out;
    }
    if same_str(lower_ascii(a.as_slice()).as_slice(), "all") {
        for i in 0..choices.len()
            invariant
                out@ == choices@.take(i as int),
        {
            out.push(choices[i]);
            assert(out@ =~= choices@.take(i + 1));
        }
        assert(choices@.take(choices@.len() as int) =~= choices@);
        return out;
    }
    let pieces = number_pieces(a.as_slice());
    let ghost all = rows(pieces@);
    assert(all.take(0) =~= Seq::<Seq<char>>::empty());
    for i in 0..pieces.len()
        invariant
            all == rows(pieces@),
            out@ == named_places(all.take(i as int), choices@),
    {
        assert(all.take(i + 1).drop_last() =~= all.take(i as int));
        assert(all.take(i + 1).last() == pieces@[i as int]@);
        if let Some(n) = parse_usize(pieces[i].as_slice()) {
            if n >= 1 && n <= choices.len() {
                out.push(choices[n - 1]);
            }
        }
    }
    assert(all.take(all.len() as int) =~= all);
    out
}

/// Takes in the user's choice among the optional targets; without an answer none is chosen. The plan
/// is shown next, whatever was chosen.
pub fn choose_optional_targets(plan: &mut CleanPlan, answer: Option<&str>) -> (r: Next)
    ensures
        r == Next::Show,
        final(plan)@ == match answer {
            Some(a) => with_optional(
                old(plan)@,
                answered(a@, choices_of(old(plan)@.optional)),
            ),
            None => old(plan)@,
        },
{
    if let Some(a) = answer {
        let choices = choices_in(&plan.optional);
        let places = read_answer(a, &choices);
        plan.include_optional(places.as_slice());
    }
    Next::Show
}

// ---------------------------------------------------------------------------
// The plan
// ---------------------------------------------------------------------------

/// How careful cleaning has to be, as a word.
pub open spec fn risk_word(r: Risk) -> Seq<char> {
    match r {
        Risk::Low => "low"@,
        Risk::Medium => "medium"@,
    }
}

/// The row of a planned target.
pub open spec fn preview_line(p: PlannedRow, verbose: bool, on: bool) -> Seq<char> {
    let m = metadata_of(p.target);
    "  "@ + left_aligned(p.target.name, 28) + " "@ + right_aligned(size_text(p.size as nat), 10)
        + "  ["@ + risk_word(m.risk) + " risk, "@ + m.redownload_cost + " re-download]\n"@ + (
    if verbose {
        "      "@ + painted(on, "2"@, p.target.path) + "\n"@
    } else {
        seq![]
    })
}

/// The target is shown under the category: what holds nothing only on request.
pub open spec fn is_previewed(p: PlannedRow, c: Category, verbose: bool) -> bool {
    p.target.category == c && (p.size > 0 || verbose)
}

pub open spec fn preview_lines(s: Seq<PlannedRow>, c: Category, verbose: bool, on: bool) -> Seq<char>
    decreases s.len(),
{
    if s.len() == 0 {
        seq![]
    } else {
        preview_lines(s.drop_last(), c, verbose, on) + (if is_previewed(s.last(), c, verbose) {
            preview_line(s.last(), verbose, on)
        } else {
            seq![]
        })
    }
}

/// Something is shown under the category.
pub open spec fn has_preview(s: Seq<PlannedRow>, c: Category, verbose: bool) -> bool {
    exists|i: int| 0 <= i < s.len() && is_previewed(#[trigger] s[i], c, verbose)
}

pub open spec fn preview_part(s: Seq<PlannedRow>, c: Category, verbose: bool, on: bool) -> Seq<char> {
    if has_preview(s, c, verbose) {
        "\n"@ + painted(on, "1"@, painted(on, "36"@, c.label_text())) + "\n"@ + preview_lines(
            s,
            c,
            verbose,
            on,
        )
    } else {
        seq![]
    }
}

pub open spec fn preview_parts(s: Seq<PlannedRow>, verbose: bool, on: bool, n: int) -> Seq<char>
    decreases n,
{
    if n <= 0 {
        seq![]
    } else {
        preview_parts(s, verbose, on, n - 1) + preview_part(s, all_categories()[n - 1], verbose, on)
    }
}

fn render_preview_line(p: &PlannedTarget, verbose: bool, style: &Style) -> (r: String)
    ensures
        r@ == preview_line(p@, verbose, style.on),
{
    let m = p.target.metadata();
    let mut out = "  ".to_string();
    out.append(align_left(p.target.name, 28).as_str());
    out.append(" ");
    out.append(align_right(fmt_size(p.size).as_str(), 10).as_str());
    out.append("  [");
    out.append(
        match m.risk {
            Risk::Low => "low",
            Risk::Medium => "medium",
        },
    );
    out.append(" risk, ");
    out.append(m.redownload_cost);
    out.append(" re-download]\n");
    let more = if verbose {
        let mut s = "      ".to_string();
        s.append(style.dim(p.target.path.as_str()).as_str());
        s.append("\n");
        s
    } else {
        none()
    };
    out.append(more.as_str());
    out
}

/// What the plan cleans, category by category.
pub fn print_preview(plan: &CleanPlan, verbose: bool, style: &Style) -> (r: String)
    ensures
        r@ == preview_parts(plan@.targets, verbose, style.on, 5),
{
    let cats = Category::ALL;
    assert(cats@ =~= all_categories());
    let ghost all = plan@.targets;
    let mut out = none();
    for k in 0..5
        invariant
            cats@ == all_categories(),
            all == plan@.targets,
            out@ == preview_parts(all, verbose, style.on, k as int),
    {
        let c = cats[k];
        let mut used = false;
        let mut list = none();
        assert(all.take(0) =~= Seq::<PlannedRow>::empty());
        for i in 0..plan.targets.len()
            invariant
                all == plan@.targets,
                list@ == preview_lines(all.take(i as int), c, verbose, style.on),
                used == exists|j: int| 0 <= j < i && is_previewed(#[trigger] all[j], c, verbose),
        {
            assert(all.take(i + 1).drop_last() =~= all.take(i as int));
            assert(all.take(i + 1).last() == plan.targets@[i as int]@);
            assert(all[i as int] == plan.targets@[i as int]@);
            let p = &plan.targets[i];
            let row = if p.target.category == c && (p.size > 0 || verbose) {
                used = true;
                render_preview_line(p, verbose, style)
            } else {
                none()
            };
            list.append(row.as_str());
        }
        assert(all.take(all.len() as int) =~= all);
        let part = if used {
            let mut s = "\n".to_string();
            s.append(heading(c, style).as_str());
            s.append("\n");
            s.append(list.as_str());
            s
        } else {
            none()
        };
        out.append(part.as_str());
    }
    out
}

/// What is shown of the plan, and what happens next: with nothing to clean the session ends, and
/// outside a dry run the user has to agree, unless consent was given beforehand.
pub open spec fn plan_turn(p: PlanRow, o: OptionsRow, on: bool) -> TurnedRow {
    let total = held(total_size(p.targets));
    let shown = preview_parts(p.targets, o.verbose, on, 5) + "\n"@ + painted(
        on,
        "1"@,
        "Total reclaimable:"@,
    ) + " "@ + painted(on, "36"@, size_text(total)) + "\n"@;
    if total == 0 && !o.recycle_bin {
        TurnedRow { text: shown + "Nothing to clean.\n"@, next: Next::End(true) }
    } else if !o.dry_run && !o.yes {
        TurnedRow { text: shown + "\nProceed with cleaning? [y/N] "@, next: Next::AskProceed }
    } else {
        TurnedRow { text: shown + "\n"@, next: Next::Prepare }
    }
}

/// Shows the plan.
pub fn show_plan(plan: &CleanPlan, opts: &Options, style: &Style) -> (r: Turned)
    ensures
        r@ == plan_turn(plan@, opts@, style.on),
{
    let total = plan.total();
    let mut text = print_preview(plan, opts.verbose, style);
    text.append("\n");
    text.append(style.bold("Total reclaimable:").as_str());
    text.append(" ");
    text.append(style.cyan(fmt_size(total).as_str()).as_str());
    text.append("\n");
    if total == 0 && !opts.recycle_bin {
        text.append("Nothing to clean.\n");
        Turned { text, next: Next::End(true) }
    } else if !opts.dry_run && !opts.yes {
        text.append("\nProceed with cleaning? [y/N] ");
        Turned { text, next: Next::AskProceed }
    } else {
        text.append("\n");
        Turned { text, next: Next::Prepare }
    }
}

/// What the answer to a question comes to: without agreement the session ends.
pub open spec fn agreed(yes: bool, text: Seq<char>, next: Next) -> TurnedRow {
    if yes {
        TurnedRow { text, next }
    } else {
        TurnedRow { text: "Aborted, nothing was deleted.\n"@, next: Next::End(true) }
    }
}

/// Takes in whether the user agrees to the cleaning.
pub fn take_consent(yes: bool) -> (r: Turned)
    ensures
        r@ == agreed(yes, "\n"@, Next::Prepare),
{
    if yes {
        Turned { text: "\n".to_string(), next: Next::Prepare }
    } else {
        Turned { text: "Aborted, nothing was deleted.\n".to_string(), next: Next::End(true) }
    }
}

/// A target of the plan belongs to Windows itself.
pub open spec fn needs_admin(p: PlanRow) -> bool {
    exists|i: int| 0 <= i < p.targets.len() && (#[trigger] p.targets[i]).metadata.requires_admin
}

/// What is said before the cleaning, and what happens next: where programs run that own caches, the
/// user has to agree once more.
pub open spec fn ready_turn(
    p: PlanRow,
    o: OptionsRow,
    elevated: bool,
    running: Seq<Seq<char>>,
    on: bool,
) -> TurnedRow {
    let rights = if needs_admin(p) && !elevated {
        painted(
            on,
            "33"@,
            "Windows system caches may need administrator permission; dpan will request UAC only if deletion is denied."@,
        ) + "\n"@
    } else {
        seq![]
    };
    if running.len() > 0 && !o.dry_run {
        let notice = rights + painted(on, "33"@, "Cache owners are running:"@) + " "@ + joined(
            running,
            ", "@,
        ) + "\nClose them first so all cache files can be removed.\n"@;
        if o.yes {
            TurnedRow { text: notice, next: Next::Clean }
        } else {
            TurnedRow {
                text: notice + "Continue and retry locked files later? [y/N] "@,
                next: Next::AskRunning,
            }
        }
    } else {
        TurnedRow { text: rights, next: Next::Clean }
    }
}

/// Prepares the cleaning, given the rights of this process and the programs that run.
pub fn prepare(
    plan: &CleanPlan,
    opts: &Options,
    elevated: bool,
    running: &Vec<String>,
    style: &Style,
) -> (r: Turned)
    ensures
        r@ == ready_turn(plan@, opts@, elevated, texts(running@), style.on),
{
    let mut text = if plan.requires_admin() && !elevated {
        let mut s = style.yellow(explain_elevation());
        s.append("\n");
        s
    } else {
        none()
    };
    if running.len() > 0 && !opts.dry_run {
        text.append(style.yellow("Cache owners are running:").as_str());
        text.append(" ");
        text.append(join(running, ", ").as_str());
        text.append("\nClose them first so all cache files can be removed.\n");
        if opts.yes {
            Turned { text, next: Next::Clean }
        } else {
            text.append("Continue and retry locked files later? [y/N] ");
            Turned { text, next: Next::AskRunning }
        }
    } else {
        Turned { text, next: Next::Clean }
    }
}

/// Takes in whether the user agrees although programs run.
pub fn take_running_consent(yes: bool) -> (r: Turned)
    ensures
        r@ == agreed(yes, seq![], Next::Clean),
{
    if yes {
        Turned { text: none(), next: Next::Clean }
    } else {
        Turned { text: "Aborted, nothing was deleted.\n".to_string(), next: Next::End(true) }
    }
}

// ---------------------------------------------------------------------------
// Cleaning
// ---------------------------------------------------------------------------

/// The cleaner with or without leave to ask for administrator rights.
pub open spec fn with_elevation(c: CleanerRow, allowed: bool) -> CleanerRow {
    CleanerRow { allow_elevation: allowed, ..c }
}

/// What becomes of the cleaner, and of the statistics, when the first `n` targets are cleaned. Only
/// the caches of Windows itself may ask for administrator rights.
pub open spec fn cleaned_all(
    c: CleanerRow,
    targets: Seq<PlannedRow>,
    courses: Seq<Course>,
    n: int,
) -> (CleanerRow, StatsRow)
    decreases n,
{
    if n <= 0 {
        (c, no_stats())
    } else {
        let (mid, sofar) = cleaned_all(c, targets, courses, n - 1);
        let p = targets[n - 1];
        let (end, one) = cleaned(
            with_elevation(mid, p.metadata.requires_admin),
            p.target.path,
            courses[n - 1],
        );
        (end, merged(sofar, one))
    }
}

/// The course is one that the outside work gave for the planned target.
pub open spec fn course_fits<
    R: Fn(&str) -> Option<Node>,
    D: Fn(&str) -> Result<(), Failure>,
    E: Fn(&str) -> bool,
    N: Fn(&AuditEntry),
    K: Fn(&str) -> bool,
    L: Fn(&str) -> Option<Vec<Listed>>,
>(
    h: Hands<R, D, E, N>,
    c: CleanerRow,
    is_link: K,
    list: L,
    p: PlannedRow,
    course: Course,
) -> bool {
    exists|path: &str|
        path@ == p.target.path && #[trigger] is_course(
            h,
            with_elevation(c, p.metadata.requires_admin),
            is_link,
            list,
            path,
            p.target.mode,
            course,
        )
}

/// The courses are ones that the outside work gave for the targets in their places.
pub open spec fn are_courses<
    R: Fn(&str) -> Option<Node>,
    D: Fn(&str) -> Result<(), Failure>,
    E: Fn(&str) -> bool,
    N: Fn(&AuditEntry),
    K: Fn(&str) -> bool,
    L: Fn(&str) -> Option<Vec<Listed>>,
>(
    h: Hands<R, D, E, N>,
    c: CleanerRow,
    is_link: K,
    list: L,
    targets: Seq<PlannedRow>,
    courses: Seq<Course>,
) -> bool {
    &&& courses.len() == targets.len()
    &&& forall|i: int|
        0 <= i < targets.len() ==> course_fits(h, c, is_link, list, targets[i], #[trigger] courses[i])
}

/// The outside work can be called as far as cleaning the planned target takes it.
pub open spec fn target_ready<
    R: Fn(&str) -> Option<Node>,
    D: Fn(&str) -> Result<(), Failure>,
    E: Fn(&str) -> bool,
    N: Fn(&AuditEntry),
    K: Fn(&str) -> bool,
    L: Fn(&str) -> Option<Vec<Listed>>,
>(h: Hands<R, D, E, N>, c: CleanerRow, is_link: K, list: L, p: PlannedRow) -> bool {
    ready_for(
        h,
        with_elevation(c, p.metadata.requires_admin),
        is_link,
        list,
        p.target.path,
        p.target.mode,
    )
}

/// Leave to ask for administrator rights is all that changes in the rules.
pub open spec fn same_but_elevation(a: CleanerRow, b: CleanerRow) -> bool {
    a.safety == b.safety && a.dry_run == b.dry_run && a.windows == b.windows
}

proof fn lemma_cleaned_rules(c: CleanerRow, path: Seq<char>, course: Course)
    ensures
        same_rules(c, cleaned(c, path, course).0),
{
    if let Course::Entries(entries, turns) = course {
        crate::clean::lemma_run_rules(c, path, entries, turns);
    }
}

proof fn lemma_courses_behind(
    c: CleanerRow,
    targets: Seq<PlannedRow>,
    courses: Seq<Course>,
    more: Course,
    n: int,
)
    requires
        0 <= n <= courses.len(),
    ensures
        cleaned_all(c, targets, courses.push(more), n) == cleaned_all(c, targets, courses, n),
    decreases n,
{
    if n > 0 {
        lemma_courses_behind(c, targets, courses, more, n - 1);
        assert(courses.push(more)[n - 1] == courses[n - 1]);
    }
}

/// Answers that fit one cleaner fit every other with the same rules.
proof fn lemma_course_rules<
    R: Fn(&str) -> Option<Node>,
    D: Fn(&str) -> Result<(), Failure>,
    E: Fn(&str) -> bool,
    N: Fn(&AuditEntry),
    K: Fn(&str) -> bool,
    L: Fn(&str) -> Option<Vec<Listed>>,
>(
    h: Hands<R, D, E, N>,
    a: CleanerRow,
    b: CleanerRow,
    is_link: K,
    list: L,
    path: &str,
    mode: crate::targets::Mode,
    course: Course,
)
    requires
        same_rules(a, b),
        is_course(h, a, is_link, list, path, mode, course),
    ensures
        is_course(h, b, is_link, list, path, mode, course),
{
    if let Course::Entries(entries, turns) = course {
        assert(crate::clean::are_turns(h, b, entries, turns)) by {
            assert forall|i: int| 0 <= i < entries.len() implies #[trigger] crate::clean::turn_fits(
                h,
                b,
                entries[i],
                turns[i],
            ) by {
                assert(crate::clean::turn_fits(h, a, entries[i], turns[i]));
                if let crate::clean::ListedRow::Path(p) = entries[i] {
                    let s = choose|s: &str|
                        s@ == p && #[trigger] crate::clean::is_turn(h, a, s, turns[i]);
                    assert(crate::clean::is_turn(h, b, s, turns[i]));
                }
            }
        }
    }
}

/// Cleans every target of the plan, in order.
pub fn clean_all<
    R: Fn(&str) -> Option<Node>,
    D: Fn(&str) -> Result<(), Failure>,
    E: Fn(&str) -> bool,
    N: Fn(&AuditEntry),
    K: Fn(&str) -> bool,
    L: Fn(&str) -> Option<Vec<Listed>>,
>(
    plan: &CleanPlan,
    cleaner: &mut Cleaner,
    hands: &Hands<R, D, E, N>,
    is_link: &K,
    list: &L,
) -> (r: CleanStats)
    requires
        forall|i: int|
            0 <= i < plan@.targets.len() ==> target_ready(
                *hands,
                old(cleaner)@,
                *is_link,
                *list,
                #[trigger] plan@.targets[i],
            ),
        forall|p: &str| #[trigger] call_requires(*is_link, (p,)),
        forall|p: &str| #[trigger] call_requires(*list, (p,)),
    ensures
        exists|courses: Seq<Course>|
            #[trigger] are_courses(
                *hands,
                old(cleaner)@,
                *is_link,
                *list,
                plan@.targets,
                courses,
            ) && (final(cleaner)@, r@) == cleaned_all(
                old(cleaner)@,
                plan@.targets,
                courses,
                plan@.targets.len() as int,
            ),
        noted(hands.note, old(cleaner)@.audit, final(cleaner)@.audit),
{
    let ghost c = cleaner@;
    let ghost all = plan@.targets;
    let ghost mut courses: Seq<Course> = seq![];
    let mut stats = CleanStats::default();
    let mut i: usize = 0;
    while i < plan.targets.len()
        invariant
            i <= plan.targets@.len(),
            all == plan@.targets,
            forall|k: int|
                0 <= k < all.len() ==> target_ready(
                    *hands,
                    c,
                    *is_link,
                    *list,
                    #[trigger] all[k],
                ),
            same_but_elevation(c, cleaner@),
            forall|p: &str| #[trigger] call_requires(*is_link, (p,)),
            forall|p: &str| #[trigger] call_requires(*list, (p,)),
            courses.len() == i,
            forall|k: int|
                0 <= k < i ==> course_fits(
                    *hands,
                    c,
                    *is_link,
                    *list,
                    all[k],
                    #[trigger] courses[k],
                ),
            (cleaner@, stats@) == cleaned_all(c, all, courses, i as int),
            noted(hands.note, c.audit, cleaner@.audit),
        decreases plan.targets@.len() - i,
    {
        let ghost mid = cleaner@;
        let ghost before = courses;
        let p = &plan.targets[i];
        assert(all[i as int] == p@);
        cleaner.set_elevation_for_target(p.metadata.requires_admin);
        let ghost set = cleaner@;
        proof {
            assert(target_ready(*hands, c, *is_link, *list, all[i as int]));
            lemma_ready_for(
                *hands,
                with_elevation(c, p@.metadata.requires_admin),
                set,
                *is_link,
                *list,
                p@.target.path,
                p@.target.mode,
            );
        }
        let one = cleaner.clean_target(&p.target, hands, is_link, list);
        proof {
            let (course, path) = choose|course: Course, path: &str|
                path@ == p@.target.path && #[trigger] is_course(
                    *hands,
                    set,
                    *is_link,
                    *list,
                    path,
                    p@.target.mode,
                    course,
                ) && (cleaner@, one@) == cleaned(set, p@.target.path, course);
            courses = before.push(course);
            lemma_courses_behind(c, all, before, course, i as int);
            lemma_cleaned_rules(set, p@.target.path, course);
            lemma_noted(hands.note, c.audit, mid.audit, cleaner@.audit);
            lemma_course_rules(
                *hands,
                set,
                with_elevation(c, p@.metadata.requires_admin),
                *is_link,
                *list,
                path,
                p@.target.mode,
                course,
            );
            assert(course_fits(*hands, c, *is_link, *list, all[i as int], course));
            assert forall|k: int| 0 <= k < i + 1 implies course_fits(
                *hands,
                c,
                *is_link,
                *list,
                all[k],
                #[trigger] courses[k],
            ) by {
                if k < i {
                    assert(courses[k] == before[k]);
                }
            }
        }
        stats.merge(&one);
        i = i + 1;
    }
    assert(are_courses(*hands, c, *is_link, *list, all, courses));
    stats
}

// ---------------------------------------------------------------------------
// What came of it
// ---------------------------------------------------------------------------

/// The first lines, faint.
pub open spec fn faint_lines(lines: Seq<Seq<char>>, indent: Seq<char>, on: bool, n: int) -> Seq<char>
    decreases n,
{
    if n <= 0 {
        seq![]
    } else {
        faint_lines(lines, indent, on, n - 1) + painted(on, "2"@, indent + lines[n - 1]) + "\n"@
    }
}

fn render_faint(lines: &Vec<String>, indent: &str, n: usize, style: &Style) -> (r: String)
    requires
        n <= lines@.len(),
    ensures
        r@ == faint_lines(texts(lines@), indent@, style.on, n as int),
{
    let mut out = none();
    for i in 0..n
        invariant
            n <= lines@.len(),
            out@ == faint_lines(texts(lines@), indent@, style.on, i as int),
    {
        let mut row = indent.to_string();
        row.append(lines[i].as_str());
        out.append(style.dim(row.as_str()).as_str());
        out.append("\n");
    }
    out
}

/// What is said of a finished cleaning, and what happens next: what failed may be tried again where
/// somebody is there to ask.
pub open spec fn cleaned_turn(
    o: OptionsRow,
    stats: StatsRow,
    lines: Seq<Seq<char>>,
    terminal: bool,
    on: bool,
) -> TurnedRow {
    TurnedRow {
        text: if o.verbose {
            faint_lines(lines, seq![], on, lines.len() as int)
        } else {
            seq![]
        },
        next: if stats.failed > 0 && !o.dry_run && terminal {
            Next::AskRetry
        } else {
            Next::Report
        },
    }
}

/// Goes on after the cleaning. `terminal` tells whether the input is a terminal.
pub fn after_cleaning(
    opts: &Options,
    stats: &CleanStats,
    lines: &Vec<String>,
    terminal: bool,
    style: &Style,
) -> (r: Turned)
    ensures
        r@ == cleaned_turn(opts@, stats@, texts(lines@), terminal, style.on),
{
    let text = if opts.verbose {
        let blank = none();
        render_faint(lines, blank.as_str(), lines.len(), style)
    } else {
        none()
    };
    let next = if stats.failed > 0 && !opts.dry_run && terminal {
        Next::AskRetry
    } else {
        Next::Report
    };
    Turned { text, next }
}

/// The question whether what failed is tried again, given the programs that still run.
pub open spec fn retry_question_text(running: Seq<Seq<char>>, on: bool) -> Seq<char> {
    (if running.len() > 0 {
        painted(on, "33"@, "Still in use:"@) + " "@ + joined(running, ", "@) + "\n"@ + painted(
            on,
            "2"@,
            "Close the listed programs, then choose retry."@,
        ) + "\n"@
    } else {
        seq![]
    }) + "Retry failed entries now? [y/N] "@
}

/// The question whether what failed is tried again.
pub fn retry_question(running: &Vec<String>, style: &Style) -> (r: String)
    ensures
        r@ == retry_question_text(texts(running@), style.on),
{
    let mut text = none();
    if running.len() > 0 {
        text = style.yellow("Still in use:");
        text.append(" ");
        text.append(join(running, ", ").as_str());
        text.append("\n");
        text.append(style.dim("Close the listed programs, then choose retry.").as_str());
        text.append("\n");
    }
    text.append("Retry failed entries now? [y/N] ");
    text
}

/// Takes in whether what failed is tried again.
pub fn take_retry_answer(yes: bool) -> (r: Next)
    ensures
        r == (if yes {
            Next::Retry
        } else {
            Next::Report
        }),
{
    if yes {
        Next::Retry
    } else {
        Next::Report
    }
}

/// What is said of a second try.
pub open spec fn retried_text(retry: StatsRow, on: bool) -> Seq<char> {
    if retry.deleted > 0 {
        painted(on, "32"@, "✓"@) + " retried entries removed\n"@
    } else {
        seq![]
    }
}

/// Takes in the statistics of a second try at what failed. There is no third: the report follows.
pub fn after_retry(stats: &mut CleanStats, retry: CleanStats, style: &Style) -> (r: Turned)
    ensures
        final(stats)@ == crate::clean::after_retry(old(stats)@, retry@),
        r@ == (TurnedRow { text: retried_text(retry@, style.on), next: Next::Report }),
{
    let text = if retry.deleted > 0 {
        let mut s = style.green("✓");
        s.append(" retried entries removed\n");
        s
    } else {
        none()
    };
    stats.take_retry(retry);
    Turned { text, next: Next::Report }
}

/// How many reasons of failures are shown.
pub open spec fn shown_reasons(stats: StatsRow, verbose: bool) -> int {
    if verbose || stats.failure_reasons.len() < 8 {
        stats.failure_reasons.len() as int
    } else {
        8
    }
}

/// The report of a cleaning.
pub open spec fn report_text(
    o: OptionsRow,
    stats: StatsRow,
    log: Option<Seq<char>>,
    on: bool,
) -> Seq<char> {
    painted(on, "32"@, "✓"@) + " "@ + painted(
        on,
        "1"@,
        if o.dry_run {
            "Would free"@
        } else {
            "Freed"@
        },
    ) + " "@ + painted(on, "36"@, size_text(stats.freed)) + " ("@ + decimal(stats.deleted)
        + " items)\n"@ + (if stats.failed > 0 {
        painted(on, "33"@, "  "@ + decimal(stats.failed) + " entries could not be removed"@) + "\n"@
            + faint_lines(stats.failure_reasons, "  "@, on, shown_reasons(stats, o.verbose))
    } else {
        seq![]
    }) + (if stats.skipped > 0 {
        painted(
            on,
            "2"@,
            "  "@ + decimal(stats.skipped) + " entries protected/whitelisted, kept"@,
        ) + "\n"@
    } else {
        seq![]
    }) + (if log is Some && !o.dry_run {
        painted(on, "2"@, "  audit log: "@ + log->0) + "\n"@
    } else {
        seq![]
    })
}

/// Reports what was cleaned. `log` is the place of the audit log.
pub fn report(opts: &Options, stats: &CleanStats, log: &Option<String>, style: &Style) -> (r: Turned)
    ensures
        r.text@ == report_text(opts@, stats@, text_opt(*log), style.on),
        r.next == if opts.recycle_bin {
            Next::EmptyBin
        } else {
            Next::End(stats@.failed == 0)
        },
{
    let mut text = style.green("✓");
    text.append(" ");
    let verb = if opts.dry_run {
        "Would free"
    } else {
        "Freed"
    };
    text.append(style.bold(verb).as_str());
    text.append(" ");
    text.append(style.cyan(fmt_size(stats.freed).as_str()).as_str());
    text.append(" (");
    text.append(decimal_of(stats.deleted as u64).as_str());
    text.append(" items)\n");
    let failures = if stats.failed > 0 {
        let mut line = "  ".to_string();
        line.append(decimal_of(stats.failed as u64).as_str());
        line.append(" entries could not be removed");
        let mut s = style.yellow(line.as_str());
        s.append("\n");
        let n: usize = if opts.verbose || stats.failure_reasons.len() < 8 {
            stats.failure_reasons.len()
        } else {
            8
        };
        s.append(render_faint(&stats.failure_reasons, "  ", n, style).as_str());
        s
    } else {
        none()
    };
    text.append(failures.as_str());
    let kept = if stats.skipped > 0 {
        let mut line = "  ".to_string();
        line.append(decimal_of(stats.skipped as u64).as_str());
        line.append(" entries protected/whitelisted, kept");
        let mut s = style.dim(line.as_str());
        s.append("\n");
        s
    } else {
        none()
    };
    text.append(kept.as_str());
    let mut last = none();
    if let Some(place) = log {
        if !opts.dry_run {
            let mut line = "  audit log: ".to_string();
            line.append(place.as_str());
            last = style.dim(line.as_str());
            last.append("\n");
        }
    }
    text.append(last.as_str());
    let next = if opts.recycle_bin {
        Next::EmptyBin
    } else {
        Next::End(stats.failed == 0)
    };
    Turned { text, next }
}

/// What happens to the recycle bin.
pub enum BinStep {
    /// Nothing, and this is said.
    Say(String),
    /// It is emptied.
    Empty,
}

/// What happens to the recycle bin: only Windows has one, and a dry run leaves it alone.
pub fn bin_step(dry_run: bool, windows: bool, style: &Style) -> (r: BinStep)
    ensures
        match r {
            BinStep::Say(text) => {
                &&& dry_run || !windows
                &&& text@ == (if windows {
                    painted(style.on, "2"@, "dry run: would empty the Recycle Bin"@)
                } else {
                    painted(
                        style.on,
                        "2"@,
                        "--recycle-bin is only available on Windows, skipped"@,
                    )
                }) + "\n"@
            },
            BinStep::Empty => windows && !dry_run,
        },
{
    if windows && !dry_run {
        return BinStep::Empty;
    }
    let mut text = if windows {
        style.dim("dry run: would empty the Recycle Bin")
    } else {
        style.dim("--recycle-bin is only available on Windows, skipped")
    };
    text.append("\n");
    BinStep::Say(text)
}

/// What is said of the recycle bin once it was tried to empty it.
pub open spec fn bin_text(emptied: Option<bool>, on: bool) -> Seq<char> {
    match emptied {
        Some(true) => painted(on, "32"@, "✓"@) + " Recycle Bin emptied\n"@,
        Some(false) => painted(on, "33"@, "could not empty the Recycle Bin"@) + "\n"@,
        None => seq![],
    }
}

/// Ends a session with a recycle bin, which may have been left alone. It ends well where nothing failed.
pub fn after_bin(stats: &CleanStats, emptied: Option<bool>, style: &Style) -> (r: Turned)
    ensures
        r@ == (TurnedRow {
            text: bin_text(emptied, style.on),
            next: Next::End(stats@.failed == 0 && emptied != Some(false)),
        }),
{
    let (text, ok) = match emptied {
        Some(true) => {
            let mut s = style.green("✓");
            s.append(" Recycle Bin emptied\n");
            (s, true)
        },
        Some(false) => {
            let mut s = style.yellow("could not empty the Recycle Bin");
            s.append("\n");
            (s, false)
        },
        None => (none(), true),
    };
    Turned { text, next: Next::End(stats.failed == 0 && ok) }
}

// ---------------------------------------------------------------------------
// From the menu
// ---------------------------------------------------------------------------

/// The options of a cleaning that the menu starts: what the settings say, and no limit where they
/// name every category.
pub open spec fn menu_options(s: SettingsRow) -> OptionsRow {
    OptionsRow {
        dry_run: false,
        yes: !s.confirm_clean,
        list: false,
        recycle_bin: s.recycle_bin,
        verbose: false,
        only: if s.categories.len() == 5 {
            None
        } else {
            Some(s.categories)
        },
    }
}

/// The options of a cleaning that the menu starts.
pub fn options_from(settings: &Settings) -> (r: Options)
    ensures
        r@ == menu_options(settings@),
{
    let only = if settings.categories.len() == 5 {
        None
    } else {
        let mut list: Vec<Category> = Vec::new();
        for i in 0..settings.categories.len()
            invariant
                list@ == settings.categories@.take(i as int),
        {
            list.push(settings.categories[i]);
            assert(list@ =~= settings.categories@.take(i + 1));
        }
        assert(settings.categories@.take(settings.categories@.len() as int)
            =~= settings.categories@);
        Some(list)
    };
    Options {
        dry_run: false,
        yes: !settings.confirm_clean,
        list: false,
        recycle_bin: settings.recycle_bin,
        verbose: false,
        only,
    }
}

// ---------------------------------------------------------------------------
// Laws
// ---------------------------------------------------------------------------

/// The steps of a session in which something may be deleted, and those that only consent leads to.
pub open spec fn acts(n: Next) -> bool {
    n == Next::Prepare || n == Next::AskRunning || n == Next::Clean || n == Next::Retry
}

/// Nothing is deleted unasked: outside a dry run, and unless consent was given beforehand, only the
/// user's agreement leads from the plan to the cleaning.
pub proof fn cleaning_takes_consent(
    p: PlanRow,
    o: OptionsRow,
    interactive: bool,
    windows: bool,
    on: bool,
    answer: bool,
)
    requires
        !o.dry_run,
        !o.yes,
    ensures
        !acts(opening(p, o, windows, on).next),
        !acts(optional_turn(p.optional, o.yes, interactive, on).next),
        !acts(plan_turn(p, o, on).next),
        acts(agreed(answer, "\n"@, Next::Prepare).next) == answer,
        !answer ==> agreed(answer, "\n"@, Next::Prepare).next == Next::End(true),
{
}

/// Where programs run that own caches, cleaning takes the user's agreement once more, unless consent
/// was given beforehand.
pub proof fn running_owners_take_consent(
    p: PlanRow,
    o: OptionsRow,
    elevated: bool,
    running: Seq<Seq<char>>,
    on: bool,
    answer: bool,
)
    requires
        running.len() > 0,
        !o.dry_run,
        !o.yes,
    ensures
        ready_turn(p, o, elevated, running, on).next == Next::AskRunning,
        (agreed(answer, seq![], Next::Clean).next == Next::Clean) == answer,
{
}

/// Consent given beforehand, and input or output that is no terminal, never lead to a question about
/// optional targets.
pub proof fn unattended_runs_choose_nothing(
    optional: Seq<PlannedRow>,
    yes: bool,
    interactive: bool,
    on: bool,
)
    requires
        yes || !interactive,
    ensures
        optional_turn(optional, yes, interactive, on).next == Next::Show,
{
}

proof fn lemma_choices(optional: Seq<PlannedRow>, k: int)
    requires
        0 <= k < choices_of(optional).len(),
        optional.len() <= usize::MAX,
    ensures
        choices_of(optional)[k] < optional.len(),
        optional[choices_of(optional)[k] as int].size > 0,
    decreases optional.len(),
{
    if optional.len() > 0 {
        let front = choices_of(optional.drop_last());
        if k < front.len() {
            lemma_choices(optional.drop_last(), k);
        }
    }
}

proof fn lemma_named(pieces: Seq<Seq<char>>, choices: Seq<usize>, k: int)
    requires
        0 <= k < named_places(pieces, choices).len(),
    ensures
        choices.contains(named_places(pieces, choices)[k]),
    decreases pieces.len(),
{
    if pieces.len() > 0 {
        let front = named_places(pieces.drop_last(), choices);
        if k < front.len() {
            lemma_named(pieces.drop_last(), choices, k);
        } else {
            let i = named_place(pieces.last(), choices.len() as int)->0;
            assert(choices[i] == named_places(pieces, choices)[k]);
        }
    }
}

/// Whatever is answered, only optional targets that were shown are chosen: ones that hold something.
pub proof fn answers_choose_what_was_shown(optional: Seq<PlannedRow>, answer: Seq<char>, k: int)
    requires
        optional.len() <= usize::MAX,
        0 <= k < answered(answer, choices_of(optional)).len(),
    ensures
        answered(answer, choices_of(optional))[k] < optional.len(),
        optional[answered(answer, choices_of(optional))[k] as int].size > 0,
{
    let choices = choices_of(optional);
    let a = trimmed(answer);
    if ascii_lower(a) == "all"@ {
        lemma_choices(optional, k);
    } else {
        let pieces = nonempty(split_by(a, parts_numbers()));
        lemma_named(pieces, choices, k);
        let j = choose|j: int|
            0 <= j < choices.len() && choices[j] == named_places(pieces, choices)[k];
        lemma_choices(optional, j);
    }
}

/// A dry run of a whole plan writes nothing to the audit log, and at none of its targets may anything
/// be deleted.
pub proof fn dry_sessions_delete_nothing(
    c: CleanerRow,
    targets: Seq<PlannedRow>,
    courses: Seq<Course>,
    n: int,
    path: Seq<char>,
)
    requires
        c.dry_run,
        0 <= n <= targets.len(),
    ensures
        cleaned_all(c, targets, courses, n).0.audit == c.audit,
        !may_delete(cleaned_all(c, targets, courses, n).0, path),
    decreases n,
{
    if n > 0 {
        dry_sessions_delete_nothing(c, targets, courses, n - 1, path);
        lemma_session_rules(c, targets, courses, n - 1);
        lemma_session_rules(c, targets, courses, n);
        let p = targets[n - 1];
        let mid = with_elevation(
            cleaned_all(c, targets, courses, n - 1).0,
            p.metadata.requires_admin,
        );
        if let Course::Entries(entries, turns) = courses[n - 1] {
            crate::clean::dry_run_records_nothing(mid, p.target.path, entries, turns);
        }
    }
}

/// A dry run of a whole plan counts what a real run of it in which nothing fails deletes, frees and
/// keeps: whatever the courses of the two calls, as long as the outside functions answer both as one
/// and the same world is.
pub proof fn dry_sessions_count_as_real_ones<
    R: Fn(&str) -> Option<Node>,
    D: Fn(&str) -> Result<(), Failure>,
    E: Fn(&str) -> bool,
    N: Fn(&AuditEntry),
    K: Fn(&str) -> bool,
    L: Fn(&str) -> Option<Vec<Listed>>,
>(
    h: Hands<R, D, E, N>,
    is_link: K,
    list: L,
    w: World,
    dry: CleanerRow,
    done: CleanerRow,
    targets: Seq<PlannedRow>,
    dry_courses: Seq<Course>,
    courses: Seq<Course>,
    n: int,
)
    requires
        tells(h.read, is_link, list, w),
        dry.dry_run,
        !done.dry_run,
        dry.safety == done.safety,
        are_courses(h, dry, is_link, list, targets, dry_courses),
        are_courses(h, done, is_link, list, targets, courses),
        forall|i: int| 0 <= i < targets.len() ==> parts_by(w, #[trigger] dry_courses[i]),
        forall|i: int| 0 <= i < targets.len() ==> parts_by(w, #[trigger] courses[i]),
        0 <= n <= targets.len(),
        cleaned_all(done, targets, courses, n).1.failed == 0,
    ensures
        counts_alike(
            cleaned_all(dry, targets, dry_courses, n).1,
            cleaned_all(done, targets, courses, n).1,
        ),
    decreases n,
{
    if n > 0 {
        let p = targets[n - 1];
        let admin = p.metadata.requires_admin;
        let dry_mid = cleaned_all(dry, targets, dry_courses, n - 1).0;
        let mid = cleaned_all(done, targets, courses, n - 1).0;
        lemma_session_rules(dry, targets, dry_courses, n - 1);
        lemma_session_rules(done, targets, courses, n - 1);
        assert(cleaned_all(done, targets, courses, n - 1).1.failed == 0);
        dry_sessions_count_as_real_ones(
            h,
            is_link,
            list,
            w,
            dry,
            done,
            targets,
            dry_courses,
            courses,
            n - 1,
        );
        let dry_course = dry_courses[n - 1];
        let course = courses[n - 1];
        assert(course_fits(h, dry, is_link, list, p, dry_course));
        assert(course_fits(h, done, is_link, list, p, course));
        let a = choose|a: &str|
            a@ == p.target.path && #[trigger] is_course(
                h,
                with_elevation(dry, admin),
                is_link,
                list,
                a,
                p.target.mode,
                dry_course,
            );
        let b = choose|b: &str|
            b@ == p.target.path && #[trigger] is_course(
                h,
                with_elevation(done, admin),
                is_link,
                list,
                b,
                p.target.mode,
                course,
            );
        lemma_course_rules(
            h,
            with_elevation(dry, admin),
            with_elevation(dry_mid, admin),
            is_link,
            list,
            a,
            p.target.mode,
            dry_course,
        );
        lemma_course_rules(
            h,
            with_elevation(done, admin),
            with_elevation(mid, admin),
            is_link,
            list,
            b,
            p.target.mode,
            course,
        );
        crate::clean::dry_targets_count_as_real_ones(
            h,
            is_link,
            list,
            w,
            with_elevation(dry_mid, admin),
            with_elevation(mid, admin),
            a,
            b,
            p.target.mode,
            dry_course,
            course,
        );
    }
}

proof fn lemma_session_rules(
    c: CleanerRow,
    targets: Seq<PlannedRow>,
    courses: Seq<Course>,
    n: int,
)
    ensures
        same_but_elevation(c, cleaned_all(c, targets, courses, n).0),
    decreases n,
{
    if n > 0 {
        lemma_session_rules(c, targets, courses, n - 1);
        let p = targets[n - 1];
        lemma_cleaned_rules(
            with_elevation(
                cleaned_all(c, targets, courses, n - 1).0,
                p.metadata.requires_admin,
            ),
            p.target.path,
            courses[n - 1],
        );
    }
}

/// A session goes on as far as it is allowed to: what is found is measured, a plan with something to free
/// is shown and then asked about, or prepared without a question in a dry run or where consent was given
/// beforehand; a prepared plan is cleaned unless programs run that own its caches and nobody agreed yet;
/// what failed may be tried again where somebody is there, and never in a dry run.
pub proof fn sessions_go_on(
    p: PlanRow,
    o: OptionsRow,
    windows: bool,
    on: bool,
    elevated: bool,
    running: Seq<Seq<char>>,
    stats: StatsRow,
    lines: Seq<Seq<char>>,
    terminal: bool,
)
    ensures
        (p.targets.len() + p.optional.len() > 0 || o.recycle_bin) && !o.list ==> opening(
            p,
            o,
            windows,
            on,
        ).next == Next::Measure,
        p.targets.len() + p.optional.len() == 0 && !o.recycle_bin ==> opening(
            p,
            o,
            windows,
            on,
        ).next == Next::End(true),
        o.list ==> opening(p, o, windows, on).next == Next::End(true),
        total_size(p.targets) > 0 || o.recycle_bin ==> plan_turn(p, o, on).next == (if o.dry_run
            || o.yes {
            Next::Prepare
        } else {
            Next::AskProceed
        }),
        total_size(p.targets) == 0 && !o.recycle_bin ==> plan_turn(p, o, on).next == Next::End(true),
        running.len() == 0 || o.dry_run || o.yes ==> ready_turn(p, o, elevated, running, on).next
            == Next::Clean,
        running.len() > 0 && !o.dry_run && !o.yes ==> ready_turn(
            p,
            o,
            elevated,
            running,
            on,
        ).next == Next::AskRunning,
        cleaned_turn(o, stats, lines, terminal, on).next == Next::AskRetry <==> stats.failed > 0
            && !o.dry_run && terminal,
        !(stats.failed > 0 && !o.dry_run && terminal) ==> cleaned_turn(
            o,
            stats,
            lines,
            terminal,
            on,
        ).next == Next::Report,
{
}

/// The optional targets that the user may choose are those that hold something, in their order.
pub proof fn what_holds_something_may_be_chosen(optional: Seq<PlannedRow>, i: int)
    requires
        optional.len() <= usize::MAX,
    ensures
        0 <= i < optional.len() ==> (choices_of(optional).contains(i as usize) <==> optional[i].size
            > 0),
        forall|j: int, k: int|
            0 <= j < k < choices_of(optional).len() ==> #[trigger] choices_of(optional)[j]
                < #[trigger] choices_of(optional)[k],
        forall|j: int|
            0 <= j < choices_of(optional).len() ==> #[trigger] choices_of(optional)[j]
                < optional.len(),
    decreases optional.len(),
{
    if optional.len() > 0 {
        let t = optional.drop_last();
        what_holds_something_may_be_chosen(t, i);
        let a = choices_of(t);
        let b = choices_of(optional);
        assert forall|j: int, k: int| 0 <= j < k < b.len() implies #[trigger] b[j]
            < #[trigger] b[k] by {
            assert(b[j] == a[j]);
            if k < a.len() {
                assert(b[k] == a[k]);
            }
        }
        assert forall|j: int| 0 <= j < b.len() implies #[trigger] b[j] < optional.len() by {
            if j < a.len() {
                assert(b[j] == a[j]);
            }
        }
        if 0 <= i < optional.len() {
            if i < t.len() {
                assert(t[i] == optional[i]);
                if a.contains(i as usize) {
                    let j = choose|j: int| 0 <= j < a.len() && a[j] == i as usize;
                    assert(b[j] == i as usize);
                }
                if b.contains(i as usize) {
                    let j = choose|j: int| 0 <= j < b.len() && b[j] == i as usize;
                    assert(j < a.len());
                    assert(a[j] == i as usize);
                }
            } else {
                if optional[i].size > 0 {
                    assert(b[a.len() as int] == i as usize);
                }
                if b.contains(i as usize) {
                    let j = choose|j: int| 0 <= j < b.len() && b[j] == i as usize;
                    if j < a.len() {
                        assert(b[j] == a[j]);
                        assert(a[j] < t.len());
                    }
                }
            }
        }
    }
}

/// The texts of numbers.
pub open spec fn number_texts(numbers: Seq<nat>) -> Seq<Seq<char>> {
    numbers.map_values(|n: nat| decimal(n))
}

/// An answer means what it says: the numbers of caches, counted from one and parted by commas, choose
/// those caches; `all`, in any case, chooses every one; and nothing chooses none.
pub proof fn answers_mean_what_they_say(numbers: Seq<nat>, choices: Seq<usize>, word: Seq<char>)
    requires
        numbers.len() > 0,
        choices.len() <= usize::MAX,
        forall|i: int| 0 <= i < numbers.len() ==> 1 <= #[trigger] numbers[i] <= choices.len(),
    ensures
        answered(joined(number_texts(numbers), seq![',']), choices) == numbers.map_values(
            |n: nat| choices[n as int - 1],
        ),
        ascii_lower(word) == "all"@ ==> answered(word, choices) == choices,
        answered(seq![], choices).len() == 0,
{
    let sep = parts_numbers();
    let pieces = number_texts(numbers);
    let a = joined(pieces, seq![',']);
    reveal_strlit("all");
    assert forall|i: int| 0 <= i < pieces.len() implies is_numeral(#[trigger] pieces[i]) by {
        assert(pieces[i] == decimal(numbers[i]));
        crate::number::lemma_decimal(numbers[i]);
    }
    lemma_numerals(pieces);
    crate::text::lemma_nothing_to_trim(a);
    assert(ascii_lower(a) != "all"@) by {
        if ascii_lower(a) == "all"@ {
            assert(ascii_lower(a)[0] == crate::text::ascii_lower_char(a[0]));
            assert("all"@[0] == 'a');
        }
    }
    lemma_all_held(pieces);
    assert(nonempty(split_by(a, sep)) == pieces);
    lemma_named_numbers(numbers, choices);
    if ascii_lower(word) == "all"@ {
        let l = ascii_lower(word);
        assert(l.len() == 3 && l[0] == 'a' && l[2] == 'l');
        assert(l[0] == crate::text::ascii_lower_char(word[0]) && l[2]
            == crate::text::ascii_lower_char(word[2]));
        crate::text::lemma_nothing_to_trim(word);
    }
    crate::text::lemma_nothing_to_trim(Seq::<char>::empty());
}

/// The text is digits alone, at least one.
spec fn is_numeral(s: Seq<char>) -> bool {
    s.len() > 0 && crate::text::all_digits(s)
}

proof fn lemma_numerals(pieces: Seq<Seq<char>>)
    requires
        pieces.len() > 0,
        forall|i: int| 0 <= i < pieces.len() ==> is_numeral(#[trigger] pieces[i]),
    ensures
        ({
            let a = joined(pieces, seq![',']);
            &&& a.len() > 0
            &&& crate::text::is_digit(a[0])
            &&& crate::text::is_digit(a.last())
            &&& split_by(a, parts_numbers()) == pieces
        }),
    decreases pieces.len(),
{
    let sep = parts_numbers();
    let last = pieces.last();
    assert(is_numeral(pieces[pieces.len() - 1]));
    assert forall|i: int| 0 <= i < last.len() implies !sep(#[trigger] last[i]) by {
        assert(crate::text::is_digit(last[i]));
    }
    crate::text::what_has_no_separator_is_one_piece(last, sep);
    assert(crate::text::is_digit(last[0]) && crate::text::is_digit(last[last.len() - 1]));
    if pieces.len() == 1 {
        assert(joined(pieces, seq![',']) == last);
        assert(seq![last] =~= pieces);
    } else {
        let front = pieces.drop_last();
        assert forall|i: int| 0 <= i < front.len() implies is_numeral(#[trigger] front[i]) by {
            assert(front[i] == pieces[i]);
        }
        lemma_numerals(front);
        let f = joined(front, seq![',']);
        let a = joined(pieces, seq![',']);
        assert(a == f + seq![','] + last);
        assert(a.last() == last[last.len() - 1]);
        assert(a[0] == f[0]);
        crate::text::separators_part(f, last, ',', sep);
        assert(front + seq![last] =~= pieces);
    }
}

proof fn lemma_all_held(v: Seq<Seq<char>>)
    requires
        forall|i: int| 0 <= i < v.len() ==> is_numeral(#[trigger] v[i]),
    ensures
        nonempty(v) == v,
    decreases v.len(),
{
    reveal(Seq::filter);
    if v.len() > 0 {
        let front = v.drop_last();
        assert forall|i: int| 0 <= i < front.len() implies is_numeral(#[trigger] front[i]) by {
            assert(front[i] == v[i]);
        }
        lemma_all_held(front);
        assert(is_numeral(v[v.len() - 1]));
        assert(front.push(v.last()) =~= v);
    }
}

proof fn lemma_named_numbers(numbers: Seq<nat>, choices: Seq<usize>)
    requires
        choices.len() <= usize::MAX,
        forall|i: int| 0 <= i < numbers.len() ==> 1 <= #[trigger] numbers[i] <= choices.len(),
    ensures
        named_places(number_texts(numbers), choices) == numbers.map_values(
            |n: nat| choices[n as int - 1],
        ),
    decreases numbers.len(),
{
    let f = |n: nat| choices[n as int - 1];
    let pieces = number_texts(numbers);
    if numbers.len() > 0 {
        let front = numbers.drop_last();
        assert forall|i: int| 0 <= i < front.len() implies 1 <= #[trigger] front[i]
            <= choices.len() by {
            assert(front[i] == numbers[i]);
        }
        lemma_named_numbers(front, choices);
        assert(pieces.drop_last() =~= number_texts(front));
        let n = numbers[numbers.len() - 1];
        assert(pieces.last() == decimal(n));
        decimal_reads_back(n, usize::MAX as nat);
        assert(numbers.map_values(f) =~= front.map_values(f).push(f(n)));
    } else {
        assert(named_places(pieces, choices) =~= numbers.map_values(f));
    }
}

/// Cleaning from the menu does what the settings say: it asks unless they say not to, empties the recycle
/// bin only where they say so, and cleans exactly the categories that they name.
pub proof fn the_menu_follows_the_settings(s: SettingsRow, c: Category)
    requires
        s.categories.no_duplicates(),
    ensures
        menu_options(s).yes == !s.confirm_clean,
        menu_options(s).recycle_bin == s.recycle_bin,
        !menu_options(s).dry_run,
        !menu_options(s).list,
        crate::targets::wanted(menu_options(s).only, c) <==> s.categories.contains(c),
{
    let v = s.categories;
    if v.len() == 5 {
        assert(v[0] != v[1] && v[0] != v[2] && v[0] != v[3] && v[0] != v[4] && v[1] != v[2] && v[1]
            != v[3] && v[1] != v[4] && v[2] != v[3] && v[2] != v[4] && v[3] != v[4]);
        assert(v[0] == c || v[1] == c || v[2] == c || v[3] == c || v[4] == c);
    }
}

/// Administrator rights may be asked for only while a target of Windows itself is cleaned.
pub proof fn rights_are_asked_for_windows_alone(
    c: CleanerRow,
    targets: Seq<PlannedRow>,
    courses: Seq<Course>,
    n: int,
)
    requires
        0 < n <= targets.len(),
    ensures
        cleaned_all(c, targets, courses, n).0.allow_elevation
            == targets[n - 1].metadata.requires_admin,
        cleaned_all(c, targets, courses, n).0.safety == c.safety,
        cleaned_all(c, targets, courses, n).0.dry_run == c.dry_run,
{
    lemma_session_rules(c, targets, courses, n);
    let p = targets[n - 1];
    lemma_cleaned_rules(
        with_elevation(
            cleaned_all(c, targets, courses, n - 1).0,
            p.metadata.requires_admin,
        ),
        p.target.path,
        courses[n - 1],
    );
}

/// Every target of a plan is cleaned, and every deletion stays in the log: outside a dry run, an entry of
/// any of the targets that the guard lets through and whose deletion works is recorded, with its path
/// and its size, whatever the other targets come to.
pub proof fn every_target_is_cleaned(
    c: CleanerRow,
    targets: Seq<PlannedRow>,
    courses: Seq<Course>,
    n: int,
    t: int,
    k: int,
    path: Seq<char>,
)
    requires
        !c.dry_run,
        0 <= t < n <= targets.len(),
        courses[t] is Entries,
        0 <= k < courses[t]->Entries_0.len(),
        courses[t]->Entries_0[k] == crate::clean::ListedRow::Path(path),
        ({
            let turn = courses[t]->Entries_1[k];
            crate::clean::let_through(c.safety, turn.parts) && turn.outcome is Ok
        }),
    ensures
        cleaned_all(c, targets, courses, n).0.audit.contains(
            crate::clean::AuditRow {
                action: crate::clean::Action::Removed,
                size: held(crate::scan::size_or_nothing(courses[t]->Entries_1[k].found)) as u64,
                path,
            },
        ),
    decreases n,
{
    let before = cleaned_all(c, targets, courses, n - 1).0;
    let p = targets[n - 1];
    let start = with_elevation(before, p.metadata.requires_admin);
    let now = cleaned_all(c, targets, courses, n).0;
    let x = crate::clean::AuditRow {
        action: crate::clean::Action::Removed,
        size: held(crate::scan::size_or_nothing(courses[t]->Entries_1[k].found)) as u64,
        path,
    };
    lemma_session_rules(c, targets, courses, n - 1);
    if t < n - 1 {
        every_target_is_cleaned(c, targets, courses, n - 1, t, k, path);
        let i = choose|i: int| 0 <= i < before.audit.len() && before.audit[i] == x;
        assert(before.audit.is_prefix_of(now.audit)) by {
            if let Course::Entries(entries, turns) = courses[n - 1] {
                crate::clean::records_are_kept(start, p.target.path, entries, turns);
            }
        }
        assert(now.audit[i] == x);
    } else {
        let entries = courses[t]->Entries_0;
        let turns = courses[t]->Entries_1;
        crate::clean::every_attempt_is_recorded(start, p.target.path, entries, turns);
        let i = crate::clean::attempts_have_their_record(start, entries, turns, k, path);
        assert(now.audit[start.audit.len() + i] == x);
    }
}

proof fn lemma_category_part(s: Seq<ResolvedRow>, on: bool, n: int, k: int, p: Seq<char>)
    requires
        0 <= k < n <= 5,
        crate::text::contains(target_part(s, all_categories()[k], on), p),
    ensures
        crate::text::contains(target_parts(s, on, n), p),
    decreases n,
{
    let none = Seq::<char>::empty();
    let front = target_parts(s, on, n - 1);
    let last = target_part(s, all_categories()[n - 1], on);
    if k < n - 1 {
        lemma_category_part(s, on, n - 1, k, p);
        crate::text::parts_stand_in_the_whole(none, front, last, p);
        assert(none + front + last =~= target_parts(s, on, n));
    } else {
        crate::text::parts_stand_in_the_whole(front, last, none, p);
        assert(front + last + none =~= target_parts(s, on, n));
    }
}

proof fn lemma_target_line(s: Seq<ResolvedRow>, on: bool, i: int)
    requires
        0 <= i < s.len(),
    ensures
        crate::text::contains(target_lines(s, s[i].category, on), target_line(s[i], on)),
    decreases s.len(),
{
    let none = Seq::<char>::empty();
    let c = s[i].category;
    let front = target_lines(s.drop_last(), c, on);
    let line = target_line(s[i], on);
    if i < s.len() - 1 {
        assert(s.drop_last()[i] == s[i]);
        lemma_target_line(s.drop_last(), on, i);
        let more = if s.last().category == c {
            target_line(s.last(), on)
        } else {
            none
        };
        crate::text::parts_stand_in_the_whole(none, front, more, line);
        assert(none + front + more =~= target_lines(s, c, on));
    } else {
        crate::text::parts_stand_in_the_whole(front, line, none, line);
        assert(front + line + none =~= target_lines(s, c, on));
    }
}

proof fn lemma_place_of_category(c: Category) -> (k: int)
    ensures
        0 <= k < 5,
        all_categories()[k] == c,
{
    match c {
        Category::Temp => 0,
        Category::System => 1,
        Category::Browser => 2,
        Category::Dev => 3,
        Category::Apps => 4,
    }
}

/// Every target that was found is listed, under the heading of its category.
pub proof fn every_target_is_listed(s: Seq<ResolvedRow>, on: bool, i: int)
    requires
        0 <= i < s.len(),
    ensures
        crate::text::contains(target_parts(s, on, 5), target_line(s[i], on)),
{
    let none = Seq::<char>::empty();
    let c = s[i].category;
    let k = lemma_place_of_category(c);
    lemma_target_line(s, on, i);
    let head = painted(on, "1"@, painted(on, "36"@, c.label_text())) + "\n"@;
    let lines = target_lines(s, c, on);
    assert(has_target(s, c));
    crate::text::parts_stand_in_the_whole(head, lines, none, target_line(s[i], on));
    assert(head + lines + none =~= target_part(s, c, on));
    lemma_category_part(s, on, 5, k, target_line(s[i], on));
}

proof fn lemma_preview_line(s: Seq<PlannedRow>, verbose: bool, on: bool, i: int)
    requires
        0 <= i < s.len(),
        s[i].size > 0 || verbose,
    ensures
        crate::text::contains(
            preview_lines(s, s[i].target.category, verbose, on),
            preview_line(s[i], verbose, on),
        ),
    decreases s.len(),
{
    let none = Seq::<char>::empty();
    let c = s[i].target.category;
    let front = preview_lines(s.drop_last(), c, verbose, on);
    let line = preview_line(s[i], verbose, on);
    if i < s.len() - 1 {
        assert(s.drop_last()[i] == s[i]);
        lemma_preview_line(s.drop_last(), verbose, on, i);
        let more = if is_previewed(s.last(), c, verbose) {
            preview_line(s.last(), verbose, on)
        } else {
            none
        };
        crate::text::parts_stand_in_the_whole(none, front, more, line);
        assert(none + front + more =~= preview_lines(s, c, verbose, on));
    } else {
        crate::text::parts_stand_in_the_whole(front, line, none, line);
        assert(front + line + none =~= preview_lines(s, c, verbose, on));
    }
}

proof fn lemma_preview_part(s: Seq<PlannedRow>, verbose: bool, on: bool, n: int, k: int, p: Seq<char>)
    requires
        0 <= k < n <= 5,
        crate::text::contains(preview_part(s, all_categories()[k], verbose, on), p),
    ensures
        crate::text::contains(preview_parts(s, verbose, on, n), p),
    decreases n,
{
    let none = Seq::<char>::empty();
    let front = preview_parts(s, verbose, on, n - 1);
    let last = preview_part(s, all_categories()[n - 1], verbose, on);
    if k < n - 1 {
        lemma_preview_part(s, verbose, on, n - 1, k, p);
        crate::text::parts_stand_in_the_whole(none, front, last, p);
        assert(none + front + last =~= preview_parts(s, verbose, on, n));
    } else {
        crate::text::parts_stand_in_the_whole(front, last, none, p);
        assert(front + last + none =~= preview_parts(s, verbose, on, n));
    }
}

/// Nothing is cleaned unseen: every target of the plan that holds something is shown before the question,
/// with its name and its size.
pub proof fn what_will_be_cleaned_is_shown(p: PlanRow, o: OptionsRow, on: bool, i: int)
    requires
        0 <= i < p.targets.len(),
        p.targets[i].size > 0,
    ensures
        crate::text::contains(
            plan_turn(p, o, on).text,
            "  "@ + left_aligned(p.targets[i].target.name, 28) + " "@ + right_aligned(
                size_text(p.targets[i].size as nat),
                10,
            ),
        ),
{
    let none = Seq::<char>::empty();
    let s = p.targets;
    let t = s[i];
    let c = t.target.category;
    let k = lemma_place_of_category(c);
    let line = preview_line(t, o.verbose, on);
    let seen = "  "@ + left_aligned(t.target.name, 28) + " "@ + right_aligned(
        size_text(t.size as nat),
        10,
    );
    let rest = line.skip(seen.len() as int);
    assert(line =~= none + seen + rest);
    crate::text::parts_stand_in_the_whole(none, seen, rest, seen);
    lemma_preview_line(s, o.verbose, on, i);
    let head = "\n"@ + painted(on, "1"@, painted(on, "36"@, c.label_text())) + "\n"@;
    let lines = preview_lines(s, c, o.verbose, on);
    assert(is_previewed(s[i], c, o.verbose));
    crate::text::parts_stand_in_the_whole(head, lines, none, line);
    assert(head + lines + none =~= preview_part(s, c, o.verbose, on));
    lemma_preview_part(s, o.verbose, on, 5, k, line);
    let parts = preview_parts(s, o.verbose, on, 5);
    let whole = plan_turn(p, o, on).text;
    assert(whole =~= none + parts + whole.skip(parts.len() as int));
    crate::text::parts_stand_in_the_whole(none, parts, whole.skip(parts.len() as int), line);
    crate::ctxmenu::lemma_contains_trans(whole, line, seen);
}

} // verus!
