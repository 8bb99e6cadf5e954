//! The inventory as text: a table, JSON, and the summary before many applications are uninstalled.

use vstd::prelude::*;

use crate::apps::{app_rows, AppEntry, AppRow, Source};
use crate::json::{json_escape, json_escaped};
use crate::number::{align_left, align_right, decimal, decimal_of, left_aligned, right_aligned};
use crate::picker::{size_cell, size_or_dash};
use crate::scan::{held, plus};
use crate::text::{join, joined, no_texts, push_text, texts};
use crate::ui::{
    fmt_size, pad_to_width, padded, painted, size_text, truncate_width, truncated, width_of, Style,
};

verus! {

/// At most `max` display cells, with `…` at the end when cut; wide characters take two cells.
pub fn truncate(s: &str, max: usize) -> (r: String)
    ensures
        r@ == truncated(s@, max as int),
        width_of(r@) <= max,
{
    truncate_width(s, max)
}

fn nothing() -> (r: String)
    ensures
        r@ == Seq::<char>::empty(),
{
    let r = String::new();
    assert(r@ =~= Seq::<char>::empty());
    r
}

// ---------------------------------------------------------------------------
// Table
// ---------------------------------------------------------------------------

/// The row of an application.
pub open spec fn table_row(a: AppRow, on: bool) -> Seq<char> {
    "  "@ + padded(truncated(a.name, 42), 42) + " "@ + padded(truncated(a.version, 16), 16) + " "@
        + right_aligned(size_cell(a.size_bytes), 10) + "  "@ + left_aligned(
        match a.install_date {
            Some(d) => d,
            None => "-"@,
        },
        10,
    ) + " "@ + painted(on, "2"@, a.source.label_text()) + "\n"@
}

pub open spec fn table_rows(apps: Seq<AppRow>, on: bool) -> Seq<char>
    decreases apps.len(),
{
    if apps.len() == 0 {
        seq![]
    } else {
        table_rows(apps.drop_last(), on) + table_row(apps.last(), on)
    }
}

/// A source and how many applications come from it.
pub struct Tally {
    pub source: Source,
    pub count: nat,
}

/// The place of a source in a tally, or the length where it has none.
pub open spec fn tally_place(t: Seq<Tally>, source: Source) -> int
    decreases t.len(),
{
    if t.len() == 0 {
        0
    } else {
        let front = tally_place(t.drop_last(), source);
        if front < t.len() - 1 || t.last().source == source {
            front
        } else {
            t.len() as int
        }
    }
}

/// The tally with one more application.
pub open spec fn tallied(t: Seq<Tally>, source: Source) -> Seq<Tally> {
    let k = tally_place(t, source);
    if k < t.len() {
        t.update(k, Tally { source, count: t[k].count + 1 })
    } else {
        t.push(Tally { source, count: 1 })
    }
}

/// How many applications come from each source, in the order in which the sources first occur.
pub open spec fn tally(apps: Seq<AppRow>) -> Seq<Tally>
    decreases apps.len(),
{
    if apps.len() == 0 {
        seq![]
    } else {
        tallied(tally(apps.drop_last()), apps.last().source)
    }
}

/// A source and its count, as text.
pub open spec fn tally_text(t: Tally) -> Seq<char> {
    t.source.label_text() + " "@ + decimal(t.count)
}

/// The table of the inventory.
pub open spec fn table_text(apps: Seq<AppRow>, on: bool) -> Seq<char> {
    painted(on, "1"@, "Apps"@) + "  "@ + painted(
        on,
        "2"@,
        "("@ + decimal(apps.len()) + " found)"@,
    ) + "\n"@ + "\n"@ + table_rows(apps, on) + "\n"@ + painted(
        on,
        "2"@,
        joined(tally(apps).map_values(|t: Tally| tally_text(t)), " · "@),
    ) + "\n"@
}

fn render_table_row(a: &AppEntry, style: &Style) -> (r: String)
    ensures
        r@ == table_row(a@, style.on),
{
    let mut out = "  ".to_string();
    out.append(pad_to_width(truncate(a.name.as_str(), 42).as_str(), 42).as_str());
    out.append(" ");
    out.append(pad_to_width(truncate(a.version.as_str(), 16).as_str(), 16).as_str());
    out.append(" ");
    out.append(align_right(size_or_dash(a.size_bytes).as_str(), 10).as_str());
    out.append("  ");
    let date = match &a.install_date {
        Some(d) => d.as_str(),
        None => "-",
    };
    out.append(align_left(date, 10).as_str());
    out.append(" ");
    out.append(style.dim(a.source.label()).as_str());
    out.append("\n");
    out
}

/// The counts as mathematical data.
pub open spec fn tallies(v: Seq<(Source, u64)>) -> Seq<Tally> {
    v.map_values(|t: (Source, u64)| Tally { source: t.0, count: t.1 as nat })
}

proof fn lemma_tally_place(t: Seq<Tally>, source: Source, k: int)
    requires
        0 <= k <= t.len(),
        forall|j: int| 0 <= j < k ==> (#[trigger] t[j]).source != source,
        k < t.len() ==> t[k].source == source,
    ensures
        tally_place(t, source) == k,
    decreases t.len(),
{
    if t.len() > 0 {
        let front = t.drop_last();
        assert forall|j: int| 0 <= j < k && j < front.len() implies (#[trigger] front[j]).source
            != source by {
            assert(front[j] == t[j]);
        }
        if k < front.len() {
            assert(front[k] == t[k]);
            lemma_tally_place(front, source, k);
        } else {
            lemma_tally_place(front, source, front.len() as int);
        }
    }
}

/// No count is more than the number of applications that were counted.
proof fn lemma_tally_bound(apps: Seq<AppRow>)
    ensures
        forall|i: int| 0 <= i < tally(apps).len() ==> (#[trigger] tally(apps)[i]).count <= apps.len(),
    decreases apps.len(),
{
    if apps.len() > 0 {
        let t = tally(apps.drop_last());
        let source = apps.last().source;
        lemma_tally_bound(apps.drop_last());
        lemma_place_in_range(t, source);
        let u = tally(apps);
        let k = tally_place(t, source);
        assert forall|i: int| 0 <= i < u.len() implies (#[trigger] u[i]).count <= apps.len() by {
            if i < t.len() {
                assert(t[i].count <= apps.len() - 1);
            }
        }
    }
}

fn count_sources(apps: &Vec<AppEntry>) -> (r: Vec<(Source, u64)>)
    ensures
        tallies(r@) == tally(app_rows(apps@)),
{
    let ghost all = app_rows(apps@);
    let mut out: Vec<(Source, u64)> = Vec::new();
    let total = apps.len();
    assert(all.take(0) =~= Seq::<AppRow>::empty());
    assert(tallies(out@) =~= Seq::<Tally>::empty());
    for i in 0..total
        invariant
            total == apps@.len(),
            all == app_rows(apps@),
            tallies(out@) == tally(all.take(i as int)),
    {
        assert(all.take(i + 1).drop_last() =~= all.take(i as int));
        assert(all.take(i + 1).last() == apps@[i as int]@);
        let source = apps[i].source;
        let ghost t = tallies(out@);
        let mut k: usize = 0;
        while k < out.len() && out[k].0 != source
            invariant
                k <= out@.len(),
                t == tallies(out@),
                forall|j: int| 0 <= j < k ==> (#[trigger] t[j]).source != source,
            decreases out@.len() - k,
        {
            assert(t[k as int].source == out@[k as int].0);
            k = k + 1;
        }
        proof {
            if k < out@.len() {
                assert(t[k as int].source == out@[k as int].0);
            }
            lemma_tally_place(t, source, k as int);
            lemma_tally_bound(all.take(i as int));
        }
        if k < out.len() {
            assert(t[k as int].count <= i);
            let n: u64 = out[k].1 + 1;
            out.set(k, (source, n));
            assert(tallies(out@) =~= tallied(t, source));
        } else {
            out.push((source, 1));
            assert(tallies(out@) =~= tallied(t, source));
        }
    }
    assert(all.take(all.len() as int) =~= all);
    out
}

fn render_tally(counts: &Vec<(Source, u64)>) -> (r: String)
    ensures
        r@ == joined(tallies(counts@).map_values(|t: Tally| tally_text(t)), " · "@),
{
    let ghost all = tallies(counts@).map_values(|t: Tally| tally_text(t));
    let mut parts = no_texts();
    assert(texts(parts@) =~= all.take(0));
    for i in 0..counts.len()
        invariant
            all == tallies(counts@).map_values(|t: Tally| tally_text(t)),
            texts(parts@) == all.take(i as int),
    {
        let mut s = counts[i].0.label().to_string();
        s.append(" ");
        s.append(decimal_of(counts[i].1).as_str());
        assert(s@ == all[i as int]);
        push_text(&mut parts, s);
        assert(texts(parts@) =~= all.take(i + 1));
    }
    assert(all.take(all.len() as int) =~= all);
    join(&parts, " · ")
}

/// The table of the inventory.
pub fn print_table(apps: &Vec<AppEntry>, style: &Style) -> (r: String)
    ensures
        r@ == table_text(app_rows(apps@), style.on),
{
    let ghost all = app_rows(apps@);
    let mut count = "(".to_string();
    count.append(decimal_of(apps.len() as u64).as_str());
    count.append(" found)");
    let mut out = style.bold("Apps");
    out.append("  ");
    out.append(style.dim(count.as_str()).as_str());
    out.append("\n");
    out.append("\n");
    let mut list = nothing();
    assert(all.take(0) =~= Seq::<AppRow>::empty());
    for i in 0..apps.len()
        invariant
            all == app_rows(apps@),
            list@ == table_rows(all.take(i as int), style.on),
    {
        assert(all.take(i + 1).drop_last() =~= all.take(i as int));
        assert(all.take(i + 1).last() == apps@[i as int]@);
        list.append(render_table_row(&apps[i], style).as_str());
    }
    assert(all.take(all.len() as int) =~= all);
    out.append(list.as_str());
    out.append("\n");
    let counts = count_sources(apps);
    let summary = render_tally(&counts);
    out.append(style.dim(summary.as_str()).as_str());
    out.append("\n");
    out
}

// ---------------------------------------------------------------------------
// JSON
// ---------------------------------------------------------------------------

/// The application as a JSON object.
pub open spec fn json_app(a: AppRow) -> Seq<char> {
    "{\"name\":\""@ + json_escaped(a.name) + "\",\"version\":\""@ + json_escaped(a.version)
        + "\",\"publisher\":\""@ + json_escaped(a.publisher) + "\",\"location\":\""@ + json_escaped(
        a.location,
    ) + "\",\"uninstall\":\""@ + json_escaped(a.uninstall_string) + "\",\"size\":"@ + (
    match a.size_bytes {
        Some(n) => decimal(n as nat),
        None => "null"@,
    }) + ",\"installed\":"@ + (match a.install_date {
        Some(d) => "\""@ + d + "\""@,
        None => "null"@,
    }) + ",\"source\":\""@ + a.source.label_text() + "\"}"@
}

/// The applications with commas between them.
pub open spec fn json_apps(apps: Seq<AppRow>) -> Seq<char> {
    joined(apps.map_values(|a: AppRow| json_app(a)), ","@)
}

fn render_json_app(a: &AppEntry) -> (r: String)
    ensures
        r@ == json_app(a@),
{
    let mut out = "{\"name\":\"".to_string();
    out.append(json_escape(a.name.as_str()).as_str());
    out.append("\",\"version\":\"");
    out.append(json_escape(a.version.as_str()).as_str());
    out.append("\",\"publisher\":\"");
    out.append(json_escape(a.publisher.as_str()).as_str());
    out.append("\",\"location\":\"");
    out.append(json_escape(a.location.as_str()).as_str());
    out.append("\",\"uninstall\":\"");
    out.append(json_escape(a.uninstall_string.as_str()).as_str());
    out.append("\",\"size\":");
    let size = match a.size_bytes {
        Some(n) => decimal_of(n),
        None => "null".to_string(),
    };
    out.append(size.as_str());
    out.append(",\"installed\":");
    let date = match &a.install_date {
        Some(d) => {
            let mut s = "\"".to_string();
            s.append(d.as_str());
            s.append("\"");
            s
        },
        None => "null".to_string(),
    };
    out.append(date.as_str());
    out.append(",\"source\":\"");
    out.append(a.source.label());
    out.append("\"}");
    out
}

/// The inventory as JSON.
pub fn print_json(apps: &Vec<AppEntry>) -> (r: String)
    ensures
        r@ == "["@ + json_apps(app_rows(apps@)) + "]"@,
{
    let ghost all = app_rows(apps@).map_values(|a: AppRow| json_app(a));
    let mut parts = no_texts();
    assert(texts(parts@) =~= all.take(0));
    for i in 0..apps.len()
        invariant
            all == app_rows(apps@).map_values(|a: AppRow| json_app(a)),
            texts(parts@) == all.take(i as int),
    {
        let s = render_json_app(&apps[i]);
        assert(s@ == all[i as int]);
        push_text(&mut parts, s);
        assert(texts(parts@) =~= all.take(i + 1));
    }
    assert(all.take(all.len() as int) =~= all);
    let mut out = "[".to_string();
    out.append(join(&parts, ",").as_str());
    out.append("]");
    out
}

// ---------------------------------------------------------------------------
// Many at once
// ---------------------------------------------------------------------------

/// What the applications at some places hold together, as far as it is known.
pub open spec fn picked_total(apps: Seq<AppRow>, picked: Seq<usize>) -> nat
    decreases picked.len(),
{
    if picked.len() == 0 {
        0
    } else {
        picked_total(apps, picked.drop_last()) + match apps[picked.last() as int].size_bytes {
            Some(n) => n as nat,
            None => 0,
        }
    }
}

/// The row of an application that is about to be uninstalled.
pub open spec fn picked_row(a: AppRow, on: bool) -> Seq<char> {
    "  "@ + padded(truncated(a.name, 44), 44) + " "@ + right_aligned(size_cell(a.size_bytes), 10)
        + "  "@ + painted(on, "2"@, a.source.label_text()) + "\n"@
}

pub open spec fn picked_rows(apps: Seq<AppRow>, picked: Seq<usize>, on: bool) -> Seq<char>
    decreases picked.len(),
{
    if picked.len() == 0 {
        seq![]
    } else {
        picked_rows(apps, picked.drop_last(), on) + picked_row(apps[picked.last() as int], on)
    }
}

/// What is about to be uninstalled.
pub open spec fn batch_text(apps: Seq<AppRow>, picked: Seq<usize>, on: bool) -> Seq<char> {
    painted(on, "1"@, "Uninstall"@) + "  "@ + decimal(picked.len()) + " apps · "@ + painted(
        on,
        "36"@,
        size_text(held(picked_total(apps, picked))),
    ) + "\n"@ + picked_rows(apps, picked, on)
}

/// What is about to be uninstalled, before the user confirms it.
pub fn batch_summary(apps: &Vec<AppEntry>, picked: &Vec<usize>, style: &Style) -> (r: String)
    requires
        forall|i: int| 0 <= i < picked@.len() ==> #[trigger] picked@[i] < apps@.len(),
    ensures
        r@ == batch_text(app_rows(apps@), picked@, style.on),
{
    let ghost all = app_rows(apps@);
    let mut sum: u64 = 0;
    let mut list = nothing();
    assert(picked@.take(0) =~= Seq::<usize>::empty());
    for i in 0..picked.len()
        invariant
            all == app_rows(apps@),
            forall|j: int| 0 <= j < picked@.len() ==> #[trigger] picked@[j] < apps@.len(),
            sum == held(picked_total(all, picked@.take(i as int))),
            list@ == picked_rows(all, picked@.take(i as int), style.on),
    {
        assert(picked@.take(i + 1).drop_last() =~= picked@.take(i as int));
        assert(picked@.take(i + 1).last() == picked@[i as int]);
        let a = &apps[picked[i]];
        assert(all[picked@[i as int] as int] == a@);
        if let Some(n) = a.size_bytes {
            sum = plus(sum, n);
        }
        let mut row = "  ".to_string();
        row.append(pad_to_width(truncate(a.name.as_str(), 44).as_str(), 44).as_str());
        row.append(" ");
        row.append(align_right(size_or_dash(a.size_bytes).as_str(), 10).as_str());
        row.append("  ");
        row.append(style.dim(a.source.label()).as_str());
        row.append("\n");
        list.append(row.as_str());
    }
    assert(picked@.take(picked@.len() as int) =~= picked@);
    let mut out = style.bold("Uninstall");
    out.append("  ");
    out.append(decimal_of(picked.len() as u64).as_str());
    out.append(" apps · ");
    out.append(style.cyan(fmt_size(sum).as_str()).as_str());
    out.append("\n");
    out.append(list.as_str());
    out
}

/// What is said when some uninstallers failed; nothing where none did.
pub open spec fn batch_problem(failed: nat, count: nat) -> Option<Seq<char>> {
    if failed > 0 {
        Some(decimal(failed) + " of "@ + decimal(count) + " uninstalls reported problems"@)
    } else {
        None
    }
}

/// What is said when some uninstallers failed.
pub fn batch_outcome(failed: usize, count: usize) -> (r: Option<String>)
    ensures
        crate::text::text_opt(r) == batch_problem(failed as nat, count as nat),
{
    if failed > 0 {
        let mut out = decimal_of(failed as u64);
        out.append(" of ");
        out.append(decimal_of(count as u64).as_str());
        out.append(" uninstalls reported problems");
        Some(out)
    } else {
        None
    }
}

// ---------------------------------------------------------------------------
// Laws
// ---------------------------------------------------------------------------

/// The sum of the counts.
pub open spec fn tally_sum(t: Seq<Tally>) -> nat
    decreases t.len(),
{
    if t.len() == 0 {
        0
    } else {
        tally_sum(t.drop_last()) + t.last().count
    }
}

/// The tally counts every application once.
pub proof fn tally_counts_everything(apps: Seq<AppRow>)
    ensures
        tally_sum(tally(apps)) == apps.len(),
    decreases apps.len(),
{
    if apps.len() > 0 {
        let t = tally(apps.drop_last());
        let source = apps.last().source;
        tally_counts_everything(apps.drop_last());
        lemma_place_in_range(t, source);
        let k = tally_place(t, source);
        if k < t.len() {
            lemma_sum_update(t, k, Tally { source, count: t[k].count + 1 });
        } else {
            assert(t.push(Tally { source, count: 1 }).drop_last() =~= t);
        }
    }
}

proof fn lemma_place_in_range(t: Seq<Tally>, source: Source)
    ensures
        0 <= tally_place(t, source) <= t.len(),
    decreases t.len(),
{
    if t.len() > 0 {
        lemma_place_in_range(t.drop_last(), source);
    }
}

proof fn lemma_sum_update(t: Seq<Tally>, k: int, x: Tally)
    requires
        0 <= k < t.len(),
    ensures
        tally_sum(t.update(k, x)) + t[k].count == tally_sum(t) + x.count,
    decreases t.len(),
{
    let u = t.update(k, x);
    if k == t.len() - 1 {
        assert(u.drop_last() =~= t.drop_last());
    } else {
        lemma_sum_update(t.drop_last(), k, x);
        assert(u.drop_last() =~= t.drop_last().update(k, x));
    }
}

/// The table counts each source by itself: one more application of a source adds one to its count and
/// leaves every other count alone.
pub proof fn sources_are_counted_apart(apps: Seq<AppRow>, source: Source)
    ensures
        count_of(tally(apps), source) == apps.filter(|a: AppRow| a.source == source).len(),
    decreases apps.len(),
{
    reveal(Seq::filter);
    if apps.len() > 0 {
        let front = apps.drop_last();
        sources_are_counted_apart(front, source);
        lemma_tallied(tally(front), apps.last().source, source);
    }
}

/// How many applications a tally counts for a source.
pub open spec fn count_of(t: Seq<Tally>, source: Source) -> nat
    decreases t.len(),
{
    if t.len() == 0 {
        0
    } else {
        count_of(t.drop_last(), source) + (if t.last().source == source {
            t.last().count
        } else {
            0
        })
    }
}

proof fn lemma_found_place(t: Seq<Tally>, source: Source)
    ensures
        0 <= tally_place(t, source) <= t.len(),
        tally_place(t, source) < t.len() ==> t[tally_place(t, source)].source == source,
    decreases t.len(),
{
    if t.len() > 0 {
        lemma_found_place(t.drop_last(), source);
    }
}

proof fn lemma_count_update(t: Seq<Tally>, k: int, x: Tally, source: Source)
    requires
        0 <= k < t.len(),
        x.source == t[k].source,
        x.count == t[k].count + 1,
    ensures
        count_of(t.update(k, x), source) == count_of(t, source) + (if x.source == source {
            1nat
        } else {
            0
        }),
    decreases t.len(),
{
    let u = t.update(k, x);
    if k < t.len() - 1 {
        lemma_count_update(t.drop_last(), k, x, source);
        assert(u.drop_last() =~= t.drop_last().update(k, x));
    } else {
        assert(u.drop_last() =~= t.drop_last());
    }
}

proof fn lemma_tallied(t: Seq<Tally>, added: Source, source: Source)
    ensures
        count_of(tallied(t, added), source) == count_of(t, source) + (if added == source {
            1nat
        } else {
            0
        }),
{
    let k = tally_place(t, added);
    lemma_found_place(t, added);
    if k < t.len() {
        lemma_count_update(t, k, Tally { source: added, count: t[k].count + 1 }, source);
    } else {
        assert(t.push(Tally { source: added, count: 1 }).drop_last() =~= t);
    }
}

proof fn lemma_row_tells_name(a: AppRow, on: bool)
    ensures
        crate::text::contains(table_row(a, on), padded(truncated(a.name, 42), 42)),
{
    let name = padded(truncated(a.name, 42), 42);
    let row = table_row(a, on);
    let n = "  "@.len() as int;
    assert(row.subrange(n, n + name.len()) =~= name);
    assert(crate::text::occurs_at(row, name, n));
}

proof fn lemma_table_holds_rows(apps: Seq<AppRow>, on: bool)
    ensures
        crate::text::contains(table_text(apps, on), table_rows(apps, on)),
{
    let n = (painted(on, "1"@, "Apps"@) + "  "@ + painted(
        on,
        "2"@,
        "("@ + decimal(apps.len()) + " found)"@,
    ) + "\n"@ + "\n"@).len() as int;
    let rows = table_rows(apps, on);
    let text = table_text(apps, on);
    assert(text.subrange(n, n + rows.len()) =~= rows);
    assert(crate::text::occurs_at(text, rows, n));
}

/// Every application is shown in the table, with its name.
pub proof fn every_application_is_shown(apps: Seq<AppRow>, on: bool, i: int)
    requires
        0 <= i < apps.len(),
    ensures
        crate::text::contains(table_rows(apps, on), padded(truncated(apps[i].name, 42), 42)),
        crate::text::contains(table_text(apps, on), table_rows(apps, on)),
    decreases apps.len(),
{
    let name = padded(truncated(apps[i].name, 42), 42);
    let none = Seq::<char>::empty();
    let front = table_rows(apps.drop_last(), on);
    let row = table_row(apps.last(), on);
    lemma_table_holds_rows(apps, on);
    if i < apps.len() - 1 {
        assert(apps.drop_last()[i] == apps[i]);
        every_application_is_shown(apps.drop_last(), on, i);
        crate::text::parts_stand_in_the_whole(none, front, row, name);
        assert(none + front + row =~= front + row);
    } else {
        lemma_row_tells_name(apps.last(), on);
        crate::text::parts_stand_in_the_whole(front, row, none, name);
        assert(front + row + none =~= front + row);
    }
}

} // verus!
