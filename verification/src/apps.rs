//! The inventory of installed applications: what the registry, Steam and portable directories hold,
//! merged into one list.

use vstd::prelude::*;

use crate::sort::{is_sorted_form, sort_listed, Listed};
use crate::steam::{app_id, registry_app_id};
use crate::text::{
    all_ascii, chars_of, contains, contains_text, folded, lower_of, occurs_at, replace, replaced,
    same, str_eq, text_opt, trim_end_char, without_end,
};

verus! {

/// Where an entry of the inventory comes from.
#[derive(Clone, Copy, PartialEq, Eq, Debug, Structural)]
pub enum Source {
    Machine,
    Machine32,
    User,
    Steam,
    Portable,
}

impl Source {
    pub open spec fn label_text(self) -> Seq<char> {
        match self {
            Source::Machine => "system"@,
            Source::Machine32 => "sys32"@,
            Source::User => "user"@,
            Source::Steam => "steam"@,
            Source::Portable => "portable"@,
        }
    }

    pub fn label(self) -> (r: &'static str)
        ensures
            r@ == self.label_text(),
    {
        match self {
            Source::Machine => "system",
            Source::Machine32 => "sys32",
            Source::User => "user",
            Source::Steam => "steam",
            Source::Portable => "portable",
        }
    }
}

/// An installed application.
#[derive(Debug)]
pub struct AppEntry {
    pub name: String,
    pub version: String,
    pub publisher: String,
    pub location: String,
    pub uninstall_string: String,
    /// The registry key that holds the entry, such as `HKLM\...\Uninstall\7-Zip`; empty for what is
    /// in no registry. Used to report what an uninstaller leaves behind.
    pub reg_key: String,
    pub size_bytes: Option<u64>,
    /// The date (YYYY-MM-DD) when it is known.
    pub install_date: Option<String>,
    pub source: Source,
}

/// An application as mathematical data.
pub struct AppRow {
    pub name: Seq<char>,
    pub version: Seq<char>,
    pub publisher: Seq<char>,
    pub location: Seq<char>,
    pub uninstall_string: Seq<char>,
    pub reg_key: Seq<char>,
    pub size_bytes: Option<u64>,
    pub install_date: Option<Seq<char>>,
    pub source: Source,
}

impl View for AppEntry {
    type V = AppRow;

    open spec fn view(&self) -> AppRow {
        AppRow {
            name: self.name@,
            version: self.version@,
            publisher: self.publisher@,
            location: self.location@,
            uninstall_string: self.uninstall_string@,
            reg_key: self.reg_key@,
            size_bytes: self.size_bytes,
            install_date: text_opt(self.install_date),
            source: self.source,
        }
    }
}

pub open spec fn app_rows(v: Seq<AppEntry>) -> Seq<AppRow> {
    v.map_values(|a: AppEntry| a@)
}

/// Adds an application to the end of a list.
pub fn push_app(list: &mut Vec<AppEntry>, app: AppEntry)
    ensures
        app_rows(final(list)@) == app_rows(old(list)@).push(app@),
{
    list.push(app);
    assert(app_rows(list@) =~= app_rows(old(list)@).push(app@));
}

/// The empty list of applications.
pub fn no_apps() -> (r: Vec<AppEntry>)
    ensures
        app_rows(r@) == Seq::<AppRow>::empty(),
{
    let r: Vec<AppEntry> = Vec::new();
    assert(app_rows(r@) =~= Seq::<AppRow>::empty());
    r
}

/// What the inventory is asked for.
pub struct AppsOptions {
    pub json: bool,
    pub filter: Option<String>,
}

impl Default for AppsOptions {
    fn default() -> (r: AppsOptions)
        ensures
            !r.json,
            r.filter is None,
    {
        AppsOptions { json: false, filter: None }
    }
}

// ---------------------------------------------------------------------------
// Lists
// ---------------------------------------------------------------------------

/// The applications that satisfy `f`, in order.
pub open spec fn kept(s: Seq<AppRow>, f: spec_fn(AppRow) -> bool) -> Seq<AppRow>
    decreases s.len(),
{
    if s.len() == 0 {
        seq![]
    } else {
        let front = kept(s.drop_last(), f);
        if f(s.last()) {
            front.push(s.last())
        } else {
            front
        }
    }
}

/// The name holds the words, case aside.
pub open spec fn name_holds(needle: Seq<char>) -> spec_fn(AppRow) -> bool {
    |a: AppRow| contains(folded(a.name), folded(needle))
}

/// The applications whose name holds the words, case aside.
pub fn filter_apps(apps: Vec<AppEntry>, needle: &str) -> (r: Vec<AppEntry>)
    ensures
        app_rows(r@) == kept(app_rows(apps@), name_holds(needle@)),
{
    let words = lower_of(needle);
    let ghost f = name_holds(needle@);
    let ghost all = app_rows(apps@);
    let ghost entries = apps@;
    let mut rest = apps;
    let mut out = no_apps();
    let mut i: usize = 0;
    assert(all.take(0) =~= Seq::<AppRow>::empty());
    assert(entries.skip(0) =~= entries);
    let count = rest.len();
    while i < count
        invariant
            i <= count,
            count == entries.len(),
            rest@ == entries.skip(i as int),
            all == app_rows(entries),
            words@ == folded(needle@),
            f == name_holds(needle@),
            app_rows(out@) == kept(all.take(i as int), f),
        decreases count - i,
    {
        assert(all.take(i + 1).drop_last() =~= all.take(i as int));
        assert(all.take(i + 1).last() == entries[i as int]@);
        let app = rest.remove(0);
        assert(rest@ =~= entries.skip(i + 1));
        let name = lower_of(app.name.as_str());
        if contains_text(name.as_slice(), words.as_slice()) {
            push_app(&mut out, app);
        }
        i = i + 1;
    }
    assert(all.take(all.len() as int) =~= all);
    out
}

/// The rank of a size: a bigger one ranks higher, and one that is not known ranks below every other.
pub open spec fn size_rank(size: Option<u64>) -> nat {
    match size {
        Some(n) => n as nat + 1,
        None => 0,
    }
}

impl Listed for AppEntry {
    open spec fn rank(&self) -> nat {
        size_rank(self.size_bytes)
    }

    open spec fn rank_name(&self) -> Seq<char> {
        folded(self.name@)
    }

    fn rank_key(&self) -> (r: u128) {
        match self.size_bytes {
            Some(n) => n as u128 + 1,
            None => 0,
        }
    }

    fn name_key(&self) -> (r: Vec<char>) {
        lower_of(self.name.as_str())
    }
}

/// Applications of unknown size stand behind all whose size is known.
pub open spec fn unknown_last(apps: Seq<AppEntry>) -> bool {
    forall|i: int, j: int|
        0 <= i < j < apps.len() ==> (#[trigger] apps[i]).size_bytes is Some || (
        #[trigger] apps[j]).size_bytes is None
}

/// Biggest first, so that what eats the disk is on top; unknown sizes sink to the bottom, and ties
/// go by name.
pub fn sort_apps(apps: &mut Vec<AppEntry>)
    ensures
        is_sorted_form(final(apps)@, old(apps)@),
        unknown_last(final(apps)@),
{
    sort_listed(apps);
    assert forall|i: int, j: int| 0 <= i < j < apps@.len() implies (
    #[trigger] apps@[i]).size_bytes is Some || (#[trigger] apps@[j]).size_bytes is None by {
        assert(crate::sort::no_later(apps@[i], apps@[j]));
    }
}

/// What two directories are told apart by: neither case nor separators nor those at the end.
pub open spec fn dir_key(path: Seq<char>) -> Seq<char> {
    without_end(replaced(folded(path), '/', seq!['\\']), '\\')
}

/// What a directory is told apart by.
pub fn norm_path(path: &str) -> (r: Vec<char>)
    ensures
        r@ == dir_key(path@),
{
    let back: Vec<char> = vec!['\\'];
    assert(back@ =~= seq!['\\']);
    let flat = replace(lower_of(path).as_slice(), '/', back.as_slice());
    crate::text::copy(trim_end_char(flat.as_slice(), '\\'))
}

// ---------------------------------------------------------------------------
// Merging the sources
// ---------------------------------------------------------------------------

/// The Steam id of an application, if it is a game of Steam.
pub open spec fn id_of(a: AppRow) -> Option<Seq<char>> {
    app_id(a.name, a.uninstall_string)
}

/// A game of the list has the id.
pub open spec fn has_game(games: Seq<AppRow>, id: Seq<char>) -> bool {
    exists|i: int| 0 <= i < games.len() && id_of(#[trigger] games[i]) == Some(id)
}

/// No game of the list stands for the application.
pub open spec fn not_among(games: Seq<AppRow>) -> spec_fn(AppRow) -> bool {
    |a: AppRow|
        match id_of(a) {
            Some(id) => !has_game(games, id),
            None => true,
        }
}

/// The inventory with the games that were found, in place of the thin entries that stand for the same
/// games.
pub open spec fn with_games(apps: Seq<AppRow>, games: Seq<AppRow>) -> Seq<AppRow> {
    kept(apps, not_among(games)) + games
}

fn game_found(games: &Vec<AppEntry>, id: &str) -> (r: bool)
    ensures
        r == has_game(app_rows(games@), id@),
{
    for i in 0..games.len()
        invariant
            forall|j: int| 0 <= j < i ==> id_of(#[trigger] app_rows(games@)[j]) != Some(id@),
    {
        assert(app_rows(games@)[i as int] == games@[i as int]@);
        if let Some(other) = registry_app_id(
            games[i].name.as_str(),
            games[i].uninstall_string.as_str(),
        ) {
            if str_eq(other.as_str(), id) {
                return true;
            }
        }
    }
    false
}

/// Moves all of `more` to the end of a list.
fn move_apps(list: &mut Vec<AppEntry>, more: Vec<AppEntry>)
    ensures
        app_rows(final(list)@) == app_rows(old(list)@) + app_rows(more@),
{
    let ghost before = app_rows(list@);
    let ghost entries = more@;
    let ghost all = app_rows(entries);
    let mut rest = more;
    let count = rest.len();
    let mut i: usize = 0;
    assert(before + all.take(0) =~= before);
    assert(entries.skip(0) =~= entries);
    while i < count
        invariant
            i <= count,
            count == entries.len(),
            rest@ == entries.skip(i as int),
            all == app_rows(entries),
            app_rows(list@) == before + all.take(i as int),
        decreases count - i,
    {
        let app = rest.remove(0);
        assert(rest@ =~= entries.skip(i + 1));
        assert(app == entries[i as int]);
        push_app(list, app);
        assert(app_rows(list@) =~= before + all.take(i + 1));
        i = i + 1;
    }
    assert(all.take(all.len() as int) =~= all);
}

/// Puts the games that Steam's own manifests describe in place of the thin registry entries for the
/// same games. An entry whose manifest is missing stays, so that no game vanishes.
pub fn merge_steam_games(apps: &mut Vec<AppEntry>, steam_games: Vec<AppEntry>)
    ensures
        app_rows(final(apps)@) == with_games(app_rows(old(apps)@), app_rows(steam_games@)),
{
    let ghost games = app_rows(steam_games@);
    let ghost f = not_among(games);
    let ghost entries = apps@;
    let ghost all = app_rows(entries);
    let mut out = no_apps();
    let mut i: usize = 0;
    assert(all.take(0) =~= Seq::<AppRow>::empty());
    assert(entries.skip(0) =~= entries);
    let count = apps.len();
    while i < count
        invariant
            i <= count,
            count == entries.len(),
            apps@ == entries.skip(i as int),
            all == app_rows(entries),
            games == app_rows(steam_games@),
            f == not_among(games),
            app_rows(out@) == kept(all.take(i as int), f),
        decreases count - i,
    {
        assert(all.take(i + 1).drop_last() =~= all.take(i as int));
        assert(all.take(i + 1).last() == entries[i as int]@);
        let app = apps.remove(0);
        assert(apps@ =~= entries.skip(i + 1));
        let stays = match registry_app_id(app.name.as_str(), app.uninstall_string.as_str()) {
            Some(id) => !game_found(&steam_games, id.as_str()),
            None => true,
        };
        if stays {
            push_app(&mut out, app);
        }
        i = i + 1;
    }
    assert(all.take(all.len() as int) =~= all);
    move_apps(&mut out, steam_games);
    *apps = out;
}

/// An application of the list is in the directory.
pub open spec fn knows_location(apps: Seq<AppRow>, location: Seq<char>) -> bool {
    exists|i: int|
        0 <= i < apps.len() && (#[trigger] apps[i]).location.len() > 0 && dir_key(apps[i].location)
            == dir_key(location)
}

/// An application of the list has the name, case aside.
pub open spec fn knows_name(apps: Seq<AppRow>, name: Seq<char>) -> bool {
    exists|i: int| 0 <= i < apps.len() && folded((#[trigger] apps[i]).name) == folded(name)
}

/// The list knows neither the place nor the name of the application.
pub open spec fn unknown_to(apps: Seq<AppRow>) -> spec_fn(AppRow) -> bool {
    |a: AppRow| !knows_location(apps, a.location) && !knows_name(apps, a.name)
}

/// The inventory of three sources: registry entries, games in place of their thin entries, and
/// portable applications that neither source knows.
pub open spec fn inventory(
    registry: Seq<AppRow>,
    games: Seq<AppRow>,
    portable: Seq<AppRow>,
) -> Seq<AppRow> {
    let found = with_games(registry, games);
    found + kept(portable, unknown_to(found))
}

fn is_known(apps: &Vec<AppEntry>, count: usize, app: &AppEntry) -> (r: bool)
    requires
        count <= apps@.len(),
    ensures
        r == !unknown_to(app_rows(apps@).take(count as int))(app@),
{
    let ghost found = app_rows(apps@).take(count as int);
    let place = norm_path(app.location.as_str());
    let name = lower_of(app.name.as_str());
    for i in 0..count
        invariant
            count <= apps@.len(),
            found == app_rows(apps@).take(count as int),
            place@ == dir_key(app@.location),
            name@ == folded(app@.name),
            forall|j: int|
                0 <= j < i ==> !((#[trigger] found[j]).location.len() > 0 && dir_key(
                    found[j].location,
                ) == place@) && folded(found[j].name) != name@,
    {
        let known = &apps[i];
        assert(found[i as int] == known@);
        let has_place = chars_of(known.location.as_str()).len() > 0;
        if has_place && same(norm_path(known.location.as_str()).as_slice(), place.as_slice()) {
            return true;
        }
        if same(lower_of(known.name.as_str()).as_slice(), name.as_slice()) {
            return true;
        }
    }
    false
}

/// The inventory of three sources.
pub fn collect(registry: Vec<AppEntry>, games: Vec<AppEntry>, portable: Vec<AppEntry>) -> (r: Vec<
    AppEntry,
>)
    ensures
        app_rows(r@) == inventory(app_rows(registry@), app_rows(games@), app_rows(portable@)),
{
    let mut apps = registry;
    merge_steam_games(&mut apps, games);
    let ghost found = app_rows(apps@);
    let ghost f = unknown_to(found);
    let n = apps.len();
    let ghost entries = portable@;
    let ghost all = app_rows(entries);
    let mut rest = portable;
    let count = rest.len();
    let mut i: usize = 0;
    assert(all.take(0) =~= Seq::<AppRow>::empty());
    assert(entries.skip(0) =~= entries);
    assert(found + Seq::<AppRow>::empty() =~= found);
    while i < count
        invariant
            i <= count,
            count == entries.len(),
            n == found.len(),
            n <= apps@.len(),
            rest@ == entries.skip(i as int),
            all == app_rows(entries),
            f == unknown_to(found),
            app_rows(apps@) == found + kept(all.take(i as int), f),
        decreases count - i,
    {
        assert(all.take(i + 1).drop_last() =~= all.take(i as int));
        assert(all.take(i + 1).last() == entries[i as int]@);
        let app = rest.remove(0);
        assert(rest@ =~= entries.skip(i + 1));
        assert(app_rows(apps@).take(n as int) =~= found);
        if !is_known(&apps, n, &app) {
            push_app(&mut apps, app);
            assert(app_rows(apps@) =~= found + kept(all.take(i + 1), f));
        }
        i = i + 1;
    }
    assert(all.take(all.len() as int) =~= all);
    apps
}

// ---------------------------------------------------------------------------
// Laws
// ---------------------------------------------------------------------------

/// What is kept is what satisfies the condition, and nothing else.
pub proof fn keeping_means_satisfying(s: Seq<AppRow>, f: spec_fn(AppRow) -> bool)
    ensures
        forall|i: int| 0 <= i < s.len() && f(#[trigger] s[i]) ==> kept(s, f).contains(s[i]),
        forall|k: int|
            0 <= k < kept(s, f).len() ==> f(#[trigger] kept(s, f)[k]) && s.contains(kept(s, f)[k]),
    decreases s.len(),
{
    if s.len() > 0 {
        let t = s.drop_last();
        keeping_means_satisfying(t, f);
        let a = kept(s, f);
        let b = kept(t, f);
        assert forall|i: int| 0 <= i < s.len() && f(#[trigger] s[i]) implies a.contains(s[i]) by {
            if i < t.len() {
                assert(t[i] == s[i]);
                let k = choose|k: int| 0 <= k < b.len() && b[k] == t[i];
                assert(a[k] == s[i]);
            } else {
                assert(a[a.len() - 1] == s[i]);
            }
        }
        assert forall|k: int| 0 <= k < a.len() implies f(#[trigger] a[k]) && s.contains(a[k]) by {
            if k < b.len() {
                assert(a[k] == b[k]);
                let i = choose|i: int| 0 <= i < t.len() && t[i] == b[k];
                assert(s[i] == a[k]);
            } else {
                assert(s[s.len() - 1] == a[k]);
            }
        }
    }
}

/// An entry without a manifest of its own stays: no game vanishes because its library was not found.
pub proof fn unmatched_entries_stay(apps: Seq<AppRow>, games: Seq<AppRow>, i: int)
    requires
        0 <= i < apps.len(),
        not_among(games)(apps[i]),
    ensures
        with_games(apps, games).contains(apps[i]),
{
    let f = not_among(games);
    keeping_means_satisfying(apps, f);
    assert(f(apps[i]));
    let k = choose|k: int| 0 <= k < kept(apps, f).len() && kept(apps, f)[k] == apps[i];
    assert(with_games(apps, games)[k] == apps[i]);
}

/// A game that Steam's manifests describe is listed once: no thin entry with its id is left beside
/// it.
pub proof fn described_games_replace_their_entries(apps: Seq<AppRow>, games: Seq<AppRow>, k: int)
    requires
        0 <= k < kept(apps, not_among(games)).len(),
    ensures
        forall|g: int|
            0 <= g < games.len() && id_of(#[trigger] games[g]) is Some ==> id_of(games[g]) != id_of(
                kept(apps, not_among(games))[k],
            ),
{
    let f = not_among(games);
    keeping_means_satisfying(apps, f);
    assert(f(kept(apps, f)[k]));
}

/// Without games nothing changes.
pub proof fn no_games_change_nothing(apps: Seq<AppRow>)
    ensures
        with_games(apps, seq![]) == apps,
{
    lemma_all_kept(apps, not_among(seq![]));
    assert(apps + Seq::<AppRow>::empty() =~= apps);
}

proof fn lemma_all_kept(s: Seq<AppRow>, f: spec_fn(AppRow) -> bool)
    requires
        forall|i: int| 0 <= i < s.len() ==> f(#[trigger] s[i]),
    ensures
        kept(s, f) == s,
    decreases s.len(),
{
    if s.len() > 0 {
        let t = s.drop_last();
        assert forall|i: int| 0 <= i < t.len() implies f(#[trigger] t[i]) by {
            assert(t[i] == s[i]);
        }
        lemma_all_kept(t, f);
        assert(f(s[s.len() - 1]));
        assert(t.push(s.last()) =~= s);
    } else {
        assert(s =~= Seq::<AppRow>::empty());
    }
}

/// A portable directory that the inventory already knows, by place or by name, is not listed again.
pub proof fn known_portables_are_not_repeated(
    registry: Seq<AppRow>,
    games: Seq<AppRow>,
    portable: Seq<AppRow>,
    k: int,
)
    requires
        with_games(registry, games).len() <= k < inventory(registry, games, portable).len(),
    ensures
        ({
            let found = with_games(registry, games);
            let a = inventory(registry, games, portable)[k];
            !knows_location(found, a.location) && !knows_name(found, a.name)
        }),
{
    let found = with_games(registry, games);
    let f = unknown_to(found);
    keeping_means_satisfying(portable, f);
    let j = k - found.len();
    assert(inventory(registry, games, portable)[k] == kept(portable, f)[j]);
    assert(f(kept(portable, f)[j]));
}

/// A list of applications is kept in order: what two lists keep together is what the one keeps, and
/// behind it what the other keeps; and each application is kept or left out by itself.
pub proof fn applications_are_judged_one_by_one(
    s: Seq<AppRow>,
    t: Seq<AppRow>,
    a: AppRow,
    f: spec_fn(AppRow) -> bool,
)
    ensures
        kept(s + t, f) == kept(s, f) + kept(t, f),
        f(a) ==> kept(seq![a], f) == seq![a],
        !f(a) ==> kept(seq![a], f).len() == 0,
    decreases t.len(),
{
    let one = seq![a];
    assert(one.drop_last() =~= Seq::<AppRow>::empty());
    assert(kept(one.drop_last(), f) =~= Seq::<AppRow>::empty());
    assert(one.last() == a);
    if f(a) {
        assert(kept(one, f) =~= seq![a]);
    }
    if t.len() > 0 {
        applications_are_judged_one_by_one(s, t.drop_last(), a, f);
        assert((s + t).drop_last() =~= s + t.drop_last());
        assert(kept(s + t, f) =~= kept(s, f) + kept(t, f));
    } else {
        assert(s + t =~= s);
        assert(kept(s, f) + kept(t, f) =~= kept(s, f));
    }
}

/// An application is found by whatever stands in its name, case aside, and by nothing else.
pub proof fn applications_are_found_by_their_name(
    s: Seq<AppRow>,
    i: int,
    front: Seq<char>,
    part: Seq<char>,
    back: Seq<char>,
    needle: Seq<char>,
)
    requires
        0 <= i < s.len(),
        all_ascii(front),
        all_ascii(part),
        all_ascii(back),
        folded(part) == folded(needle),
        s[i].name == front + part + back,
    ensures
        kept(s, name_holds(needle)).contains(s[i]),
        forall|k: int|
            0 <= k < kept(s, name_holds(needle)).len() ==> s.contains(
                #[trigger] kept(s, name_holds(needle))[k],
            ) && exists|p: int|
                occurs_at(folded(kept(s, name_holds(needle))[k].name), folded(needle), p),
{
    let f = name_holds(needle);
    crate::text::parts_are_found_in_any_case(front, part, back, needle);
    assert(f(s[i]));
    keeping_means_satisfying(s, f);
    assert forall|k: int| 0 <= k < kept(s, f).len() implies s.contains(#[trigger] kept(s, f)[k])
        && exists|p: int| occurs_at(folded(kept(s, f)[k].name), folded(needle), p) by {
        assert(f(kept(s, f)[k]));
        assert(contains(folded(kept(s, f)[k].name), folded(needle)));
    }
}

/// Applications are listed by their size, the biggest first; those of unknown size stand last, and equals
/// go by name, case aside.
pub proof fn the_biggest_application_comes_first(r: Seq<AppEntry>, s: Seq<AppEntry>, i: int, j: int)
    requires
        is_sorted_form(r, s),
        0 <= i < j < r.len(),
    ensures
        r[j].size_bytes is Some ==> r[i].size_bytes is Some && r[i].size_bytes->0
            >= r[j].size_bytes->0,
        r[i].size_bytes == r[j].size_bytes && folded(r[i].name@) != folded(r[j].name@) ==> exists|
            k: int,
        |
            crate::sort::comes_first_at(folded(r[i].name@), folded(r[j].name@), k),
        r.to_multiset() == s.to_multiset(),
{
    crate::sort::lists_begin_with_the_biggest(r, s, i, j);
}

/// The application is another one: it has another name, case aside, and is not known to be at the same
/// place.
pub open spec fn is_other(a: AppRow, b: AppRow) -> bool {
    folded(a.name) != folded(b.name) && (a.location.len() == 0 || dir_key(a.location) != dir_key(
        b.location,
    ))
}

/// Every application of the list is another one.
pub open spec fn all_others(list: Seq<AppRow>, b: AppRow) -> bool {
    forall|i: int| 0 <= i < list.len() ==> is_other(#[trigger] list[i], b)
}

/// The inventory holds every game that Steam's manifests describe, every entry of the registry that is
/// none of these games, and every portable application that is at no place and has no name that is
/// listed already.
pub proof fn the_inventory_loses_nothing(
    registry: Seq<AppRow>,
    games: Seq<AppRow>,
    portable: Seq<AppRow>,
    i: int,
)
    ensures
        0 <= i < games.len() ==> inventory(registry, games, portable).contains(games[i]),
        0 <= i < registry.len() && (forall|g: int|
            0 <= g < games.len() ==> id_of(#[trigger] games[g]) is None || id_of(games[g]) != id_of(
                registry[i],
            )) ==> inventory(registry, games, portable).contains(registry[i]),
        0 <= i < portable.len() && all_others(registry, portable[i]) && all_others(games, portable[i])
            ==> inventory(registry, games, portable).contains(portable[i]),
{
    let f = not_among(games);
    let found = with_games(registry, games);
    let all = inventory(registry, games, portable);
    let thin = kept(registry, f);
    keeping_means_satisfying(registry, f);
    if 0 <= i < games.len() {
        assert(found[thin.len() + i] == games[i]);
        assert(all[thin.len() + i] == games[i]);
    }
    if 0 <= i < registry.len() && forall|g: int|
        0 <= g < games.len() ==> id_of(#[trigger] games[g]) is None || id_of(games[g]) != id_of(
            registry[i],
        ) {
        assert(f(registry[i]));
        let k = choose|k: int| 0 <= k < thin.len() && thin[k] == registry[i];
        assert(found[k] == registry[i]);
        assert(all[k] == registry[i]);
    }
    let g = unknown_to(found);
    keeping_means_satisfying(portable, g);
    if 0 <= i < portable.len() && all_others(registry, portable[i]) && all_others(
        games,
        portable[i],
    ) {
        assert(g(portable[i])) by {
            assert forall|k: int| 0 <= k < found.len() implies folded((#[trigger] found[k]).name)
                != folded(portable[i].name) && (found[k].location.len() == 0 || dir_key(
                found[k].location,
            ) != dir_key(portable[i].location)) by {
                if k < thin.len() {
                    assert(found[k] == thin[k]);
                    let r = choose|r: int| 0 <= r < registry.len() && registry[r] == thin[k];
                    assert(is_other(registry[r], portable[i]));
                } else {
                    assert(found[k] == games[k - thin.len()]);
                    assert(is_other(games[k - thin.len()], portable[i]));
                }
            }
        }
        let more = kept(portable, g);
        let k = choose|k: int| 0 <= k < more.len() && more[k] == portable[i];
        assert(all[found.len() + k] == portable[i]);
    }
}

/// Directories are told apart by neither the case of ASCII letters, nor the kind of their separators, nor
/// separators at the end.
pub proof fn directories_are_told_apart_by_their_names(a: Seq<char>, b: Seq<char>)
    requires
        all_ascii(a),
        all_ascii(b),
    ensures
        dir_key(a + seq!['\\']) == dir_key(a),
        dir_key(a + seq!['/']) == dir_key(a),
        a.len() == b.len() && (forall|i: int|
            0 <= i < a.len() ==> crate::text::ascii_lower_char(#[trigger] a[i])
                == crate::text::ascii_lower_char(b[i]) || ((a[i] == '/' || a[i] == '\\') && (b[i] == '/'
                || b[i] == '\\'))) ==> dir_key(a) == dir_key(b),
        a.len() > 0 && a.last() != '/' && a.last() != '\\' && b.len() > 0 && b.last() != '/'
            && b.last() != '\\' && dir_key(a) == dir_key(b) ==> a.len() == b.len() && (forall|i: int|
            0 <= i < a.len() ==> crate::text::ascii_lower_char(#[trigger] a[i])
                == crate::text::ascii_lower_char(b[i]) || ((a[i] == '/' || a[i] == '\\') && (b[i] == '/'
                || b[i] == '\\'))),
{
    lemma_flat(a);
    lemma_flat(b);
    let x = flat(a);
    let y = flat(b);
    let c = a + seq!['\\'];
    let d = a + seq!['/'];
    assert(all_ascii(c));
    assert(all_ascii(d));
    lemma_flat(c);
    lemma_flat(d);
    assert(flat(c) =~= x.push('\\'));
    assert(flat(d) =~= x.push('\\'));
    assert(x.push('\\').drop_last() =~= x);
    if a.len() == b.len() && forall|i: int|
        0 <= i < a.len() ==> crate::text::ascii_lower_char(#[trigger] a[i])
            == crate::text::ascii_lower_char(b[i]) || ((a[i] == '/' || a[i] == '\\') && (b[i] == '/'
            || b[i] == '\\')) {
        assert(x =~= y);
    }
    if a.len() > 0 && a.last() != '/' && a.last() != '\\' && b.len() > 0 && b.last() != '/'
        && b.last() != '\\' && dir_key(a) == dir_key(b) {
        assert(x.last() == flat_char(a.last()) && y.last() == flat_char(b.last()));
        assert(x == y);
        assert forall|i: int| 0 <= i < a.len() implies crate::text::ascii_lower_char(#[trigger] a[i])
            == crate::text::ascii_lower_char(b[i]) || ((a[i] == '/' || a[i] == '\\') && (b[i] == '/'
            || b[i] == '\\')) by {
            assert(x[i] == flat_char(a[i]) && y[i] == flat_char(b[i]));
        }
    }
}

spec fn flat_char(c: char) -> char {
    if c == '/' {
        '\\'
    } else {
        crate::text::ascii_lower_char(c)
    }
}

spec fn flat(s: Seq<char>) -> Seq<char> {
    s.map_values(|c: char| flat_char(c))
}

proof fn lemma_flat(s: Seq<char>)
    requires
        all_ascii(s),
    ensures
        dir_key(s) == without_end(flat(s), '\\'),
{
    crate::text::replacing_keeps_places(folded(s), '/', '\\');
    assert(replaced(folded(s), '/', seq!['\\']) =~= flat(s));
}

} // verus!
