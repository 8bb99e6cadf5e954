//! Where inventory entries come from: the uninstall keys of the registry, and directories of
//! portable applications.

use vstd::prelude::*;
use vstd::slice::slice_subrange;

use crate::apps::{app_rows, no_apps, push_app, AppEntry, AppRow, Source};
use crate::calendar::{day_from_unix, day_of};
use crate::paths::{is_path_of, path_below, PartKind, PartRow, PathParts, PathRow};
use crate::safety::{is_place, Env};
use crate::scan::{entry_size, held, size_or_nothing, Node};
use crate::targets::{answers, answers_all};
use crate::text::{
    all_digits, ascii_lower, chars_of, digits_only, ends_with, has_prefix, has_suffix, is_digit,
    lines, lines_of, lower_ascii, no_texts, push_text, rows, starts_with, str_eq, str_texts,
    string_of, text_opt, texts, trim, trimmed,
};
use crate::version::{
    lemma_version_le_antisym, lemma_version_le_total, lemma_version_le_trans, not_above, version_le,
};

verus! {

// ---------------------------------------------------------------------------
// Registry entries
// ---------------------------------------------------------------------------

/// The entry is no application of its own: it has no name, is a component of the system or a part of
/// another entry, or is an update.
pub open spec fn hidden(
    name: Seq<char>,
    system_component: bool,
    parent: bool,
    release_type: Seq<char>,
) -> bool {
    ||| trimmed(name).len() == 0
    ||| system_component
    ||| parent
    ||| release_type == "Security Update"@
    ||| release_type == "Update Rollup"@
    ||| release_type == "Hotfix"@
    ||| release_type == "ServicePack"@
}

/// Whether a raw registry entry is hidden. `parent` tells that it belongs to another entry, as patches
/// do.
pub fn should_hide(name: &str, system_component: bool, parent: bool, release_type: &str) -> (r: bool)
    ensures
        r == hidden(name@, system_component, parent, release_type@),
{
    if crate::text::trim_str(name).len() == 0 || system_component || parent {
        return true;
    }
    str_eq(release_type, "Security Update") || str_eq(release_type, "Update Rollup") || str_eq(
        release_type,
        "Hotfix",
    ) || str_eq(release_type, "ServicePack")
}

/// The date of eight digits `YYYYMMDD`, as `YYYY-MM-DD`.
pub open spec fn dashed_date(raw: Seq<char>) -> Option<Seq<char>> {
    let t = trimmed(raw);
    if t.len() == 8 && all_digits(t) {
        Some(t.subrange(0, 4) + "-"@ + t.subrange(4, 6) + "-"@ + t.subrange(6, 8))
    } else {
        None
    }
}

/// The registry writes dates as `YYYYMMDD`; the inventory writes them as `YYYY-MM-DD`.
pub fn fmt_install_date(raw: &str) -> (r: Option<String>)
    ensures
        text_opt(r) == dashed_date(raw@),
{
    let t = crate::text::trim_str(raw);
    if t.len() != 8 || !digits_only(t.as_slice()) {
        return None;
    }
    let s = t.as_slice();
    let mut out = string_of(slice_subrange(s, 0, 4));
    out.append("-");
    out.append(string_of(slice_subrange(s, 4, 6)).as_str());
    out.append("-");
    out.append(string_of(slice_subrange(s, 6, 8)).as_str());
    Some(out)
}

/// The two roots of the registry that hold uninstall keys.
#[derive(Clone, Copy, PartialEq, Eq, Debug, Structural)]
pub enum Root {
    /// `HKEY_LOCAL_MACHINE`
    Machine,
    /// `HKEY_CURRENT_USER`
    User,
}

impl Root {
    pub open spec fn short_text(self) -> Seq<char> {
        match self {
            Root::Machine => "HKLM"@,
            Root::User => "HKCU"@,
        }
    }

    pub fn short(self) -> (r: &'static str)
        ensures
            r@ == self.short_text(),
    {
        match self {
            Root::Machine => "HKLM",
            Root::User => "HKCU",
        }
    }
}

/// A key whose subkeys are installed applications.
pub struct Hive {
    pub root: Root,
    pub path: &'static str,
    pub source: Source,
}

/// A hive as mathematical data.
pub struct HiveRow {
    pub root: Root,
    pub path: Seq<char>,
    pub source: Source,
}

impl View for Hive {
    type V = HiveRow;

    open spec fn view(&self) -> HiveRow {
        HiveRow { root: self.root, path: self.path@, source: self.source }
    }
}

/// The three places that hold uninstall keys: of the machine, of 32-bit programs, of the user.
pub fn hives() -> (r: Vec<Hive>)
    ensures
        r@.map_values(|h: Hive| h@) == seq![
            HiveRow {
                root: Root::Machine,
                path: "SOFTWARE\\Microsoft\\Windows\\CurrentVersion\\Uninstall"@,
                source: Source::Machine,
            },
            HiveRow {
                root: Root::Machine,
                path: "SOFTWARE\\WOW6432Node\\Microsoft\\Windows\\CurrentVersion\\Uninstall"@,
                source: Source::Machine32,
            },
            HiveRow {
                root: Root::User,
                path: "SOFTWARE\\Microsoft\\Windows\\CurrentVersion\\Uninstall"@,
                source: Source::User,
            },
        ],
{
    let v: Vec<Hive> = vec![
        Hive {
            root: Root::Machine,
            path: "SOFTWARE\\Microsoft\\Windows\\CurrentVersion\\Uninstall",
            source: Source::Machine,
        },
        Hive {
            root: Root::Machine,
            path: "SOFTWARE\\WOW6432Node\\Microsoft\\Windows\\CurrentVersion\\Uninstall",
            source: Source::Machine32,
        },
        Hive {
            root: Root::User,
            path: "SOFTWARE\\Microsoft\\Windows\\CurrentVersion\\Uninstall",
            source: Source::User,
        },
    ];
    assert(v@.map_values(|h: Hive| h@) =~= seq![
        HiveRow {
            root: Root::Machine,
            path: "SOFTWARE\\Microsoft\\Windows\\CurrentVersion\\Uninstall"@,
            source: Source::Machine,
        },
        HiveRow {
            root: Root::Machine,
            path: "SOFTWARE\\WOW6432Node\\Microsoft\\Windows\\CurrentVersion\\Uninstall"@,
            source: Source::Machine32,
        },
        HiveRow {
            root: Root::User,
            path: "SOFTWARE\\Microsoft\\Windows\\CurrentVersion\\Uninstall"@,
            source: Source::User,
        },
    ]);
    v
}

/// The values of an uninstall key, as they were read.
pub struct RawApp {
    pub root: Root,
    pub path: String,
    pub sub: String,
    pub source: Source,
    pub display_name: String,
    pub system_component: Option<u32>,
    pub parent_key_name: String,
    pub parent_display_name: String,
    pub release_type: String,
    pub display_version: String,
    pub publisher: String,
    pub install_location: String,
    pub quiet_uninstall_string: String,
    pub uninstall_string: String,
    /// In KB.
    pub estimated_size: Option<u32>,
    pub install_date: String,
}

/// The key is hidden.
pub open spec fn raw_hidden(r: RawApp) -> bool {
    hidden(
        r.display_name@,
        r.system_component == Some(1u32),
        r.parent_key_name@.len() > 0 || r.parent_display_name@.len() > 0,
        r.release_type@,
    )
}

/// The entry of a key. The vendor's silent command is preferred where there is one.
pub open spec fn raw_entry(r: RawApp) -> AppRow {
    AppRow {
        name: r.display_name@,
        version: r.display_version@,
        publisher: r.publisher@,
        location: r.install_location@,
        uninstall_string: if r.quiet_uninstall_string@.len() == 0 {
            r.uninstall_string@
        } else {
            r.quiet_uninstall_string@
        },
        reg_key: r.root.short_text() + "\\"@ + r.path@ + "\\"@ + r.sub@,
        size_bytes: match r.estimated_size {
            Some(kb) => Some((kb * 1024) as u64),
            None => None,
        },
        install_date: dashed_date(r.install_date@),
        source: r.source,
    }
}

/// The entries of the keys that are not hidden, in order.
pub open spec fn raw_entries(s: Seq<RawApp>) -> Seq<AppRow>
    decreases s.len(),
{
    if s.len() == 0 {
        seq![]
    } else {
        let front = raw_entries(s.drop_last());
        if raw_hidden(s.last()) {
            front
        } else {
            front.push(raw_entry(s.last()))
        }
    }
}

fn has_chars(s: &str) -> (r: bool)
    ensures
        r == (s@.len() > 0),
{
    chars_of(s).len() > 0
}

fn entry_of(raw: &RawApp) -> (r: Option<AppEntry>)
    ensures
        match r {
            Some(a) => !raw_hidden(*raw) && a@ == raw_entry(*raw),
            None => raw_hidden(*raw),
        },
{
    let component = match raw.system_component {
        Some(n) => n == 1,
        None => false,
    };
    let parent = has_chars(raw.parent_key_name.as_str()) || has_chars(
        raw.parent_display_name.as_str(),
    );
    if should_hide(raw.display_name.as_str(), component, parent, raw.release_type.as_str()) {
        return None;
    }
    let mut key = raw.root.short().to_string();
    key.append("\\");
    key.append(raw.path.as_str());
    key.append("\\");
    key.append(raw.sub.as_str());
    let command = if has_chars(raw.quiet_uninstall_string.as_str()) {
        raw.quiet_uninstall_string.clone()
    } else {
        raw.uninstall_string.clone()
    };
    Some(
        AppEntry {
            name: raw.display_name.clone(),
            version: raw.display_version.clone(),
            publisher: raw.publisher.clone(),
            location: raw.install_location.clone(),
            uninstall_string: command,
            reg_key: key,
            size_bytes: match raw.estimated_size {
                Some(kb) => Some(kb as u64 * 1024),
                None => None,
            },
            install_date: fmt_install_date(raw.install_date.as_str()),
            source: raw.source,
        },
    )
}

/// The entries of uninstall keys, without those that are hidden.
pub fn registry_apps(keys: &Vec<RawApp>) -> (r: Vec<AppEntry>)
    ensures
        app_rows(r@) == raw_entries(keys@),
{
    let mut out = no_apps();
    assert(keys@.take(0) =~= Seq::<RawApp>::empty());
    for i in 0..keys.len()
        invariant
            app_rows(out@) == raw_entries(keys@.take(i as int)),
    {
        assert(keys@.take(i + 1).drop_last() =~= keys@.take(i as int));
        if let Some(a) = entry_of(&keys[i]) {
            push_app(&mut out, a);
        }
    }
    assert(keys@.take(keys@.len() as int) =~= keys@);
    out
}

// ---------------------------------------------------------------------------
// Portable applications
// ---------------------------------------------------------------------------

/// The lines of the user's list of directories that are neither blank nor comments.
pub open spec fn listed_dirs(lines: Seq<Seq<char>>) -> Seq<Seq<char>>
    decreases lines.len(),
{
    if lines.len() == 0 {
        seq![]
    } else {
        let front = listed_dirs(lines.drop_last());
        let l = trimmed(lines.last());
        if l.len() == 0 || has_prefix(l, "#"@) {
            front
        } else {
            front.push(l)
        }
    }
}

/// The directories that the user lists.
pub fn parse_portable_dirs(content: &str) -> (r: Vec<String>)
    ensures
        texts(r@) == listed_dirs(lines_of(content@)),
{
    let all = lines(chars_of(content).as_slice());
    let ghost ls = rows(all@);
    let mut out = no_texts();
    assert(ls.take(0) =~= Seq::<Seq<char>>::empty());
    for i in 0..all.len()
        invariant
            ls == rows(all@),
            texts(out@) == listed_dirs(ls.take(i as int)),
    {
        assert(ls.take(i + 1).drop_last() =~= ls.take(i as int));
        assert(ls.take(i + 1).last() == all@[i as int]@);
        let l = trim(all[i].as_slice());
        if l.len() > 0 && !starts_with(l, "#") {
            push_text(&mut out, string_of(l));
        }
    }
    assert(ls.take(ls.len() as int) =~= ls);
    out
}

/// The pieces of the path of the user's list of directories.
pub open spec fn portable_list_pieces(env: Env) -> Option<Seq<Seq<char>>> {
    match env("APPDATA"@) {
        Some(dir) => Some(seq![dir, "dustpan"@, "portable_dirs.txt"@]),
        None => None,
    }
}

/// `%APPDATA%\dustpan\portable_dirs.txt`: one directory on each line, `#` comments.
pub fn portable_list_path<F: Fn(&str) -> Option<String>>(lookup: &F) -> (r: Option<String>)
    requires
        answers_all(*lookup),
    ensures
        forall|env: Env|
            answers(*lookup, env) ==> is_place(text_opt(r), #[trigger] portable_list_pieces(env)),
{
    let appdata = lookup("APPDATA");
    if let Some(dir) = &appdata {
        let names: [&str; 2] = ["dustpan", "portable_dirs.txt"];
        let p = path_below(dir.as_str(), names.as_slice());
        assert(seq![dir@] + str_texts(names@) =~= seq![dir@, "dustpan"@, "portable_dirs.txt"@]);
        return Some(p);
    }
    None
}

/// The texts are the paths of the pieces, each in its place; the texts behind them are the rest.
pub open spec fn are_paths(
    list: Seq<Seq<char>>,
    places: Seq<Seq<Seq<char>>>,
    rest: Seq<Seq<char>>,
) -> bool {
    &&& list.len() == places.len() + rest.len()
    &&& forall|i: int| 0 <= i < places.len() ==> is_path_of(list[i], #[trigger] places[i])
    &&& list.skip(places.len() as int) == rest
}

/// Where unpacked applications are kept, as far as variables name it.
pub open spec fn portable_places(env: Env) -> Seq<Seq<Seq<char>>> {
    let local = match env("LOCALAPPDATA"@) {
        Some(l) => seq![seq![l, "Programs"@]],
        None => seq![],
    };
    match env("USERPROFILE"@) {
        Some(p) => local + seq![seq![p, "scoop"@, "apps"@], seq![p, "PortableApps"@]],
        None => local,
    }
}

/// The directory that Windows users keep at the top of their drive.
pub open spec fn windows_place(windows: bool) -> Seq<Seq<char>> {
    if windows {
        seq!["C:\\PortableApps"@]
    } else {
        seq![]
    }
}

/// The directories where portable applications are looked for: the usual ones, then those that the
/// user lists.
pub fn portable_roots<F: Fn(&str) -> Option<String>>(
    lookup: &F,
    windows: bool,
    listed: &Vec<String>,
) -> (r: Vec<String>)
    requires
        answers_all(*lookup),
    ensures
        forall|env: Env|
            answers(*lookup, env) ==> are_paths(
                texts(r@),
                #[trigger] portable_places(env),
                windows_place(windows) + texts(listed@),
            ),
{
    let mut out = no_texts();
    let local = lookup("LOCALAPPDATA");
    if let Some(l) = &local {
        let names: [&str; 1] = ["Programs"];
        let p = path_below(l.as_str(), names.as_slice());
        assert(seq![l@] + str_texts(names@) =~= seq![l@, "Programs"@]);
        push_text(&mut out, p);
    }
    let profile = lookup("USERPROFILE");
    if let Some(u) = &profile {
        let names: [&str; 2] = ["scoop", "apps"];
        let p = path_below(u.as_str(), names.as_slice());
        assert(seq![u@] + str_texts(names@) =~= seq![u@, "scoop"@, "apps"@]);
        push_text(&mut out, p);
        let name: [&str; 1] = ["PortableApps"];
        let q = path_below(u.as_str(), name.as_slice());
        assert(seq![u@] + str_texts(name@) =~= seq![u@, "PortableApps"@]);
        push_text(&mut out, q);
    }
    let ghost usual = texts(out@);
    if windows {
        push_text(&mut out, "C:\\PortableApps".to_string());
    }
    assert(texts(out@) =~= usual + windows_place(windows));
    let ghost fixed = texts(out@);
    let ghost all = texts(listed@);
    assert(fixed + all.take(0) =~= fixed);
    for i in 0..listed.len()
        invariant
            all == texts(listed@),
            texts(out@) == fixed + all.take(i as int),
    {
        push_text(&mut out, listed[i].clone());
        assert(texts(out@) =~= fixed + all.take(i + 1));
    }
    assert(all.take(all.len() as int) =~= all);
    assert forall|env: Env| answers(*lookup, env) implies are_paths(
        texts(out@),
        #[trigger] portable_places(env),
        windows_place(windows) + texts(listed@),
    ) by {
        assert(text_opt(local) == env("LOCALAPPDATA"@));
        assert(text_opt(profile) == env("USERPROFILE"@));
        let places = portable_places(env);
        assert(usual.len() == places.len());
        assert(texts(out@).skip(places.len() as int) =~= windows_place(windows) + all);
        assert forall|i: int| 0 <= i < places.len() implies is_path_of(
            texts(out@)[i],
            #[trigger] places[i],
        ) by {
            assert(texts(out@)[i] == usual[i]);
        }
    }
    out
}

/// An entry of a directory, as it is when links are followed.
pub struct Found {
    pub name: String,
    pub path: String,
    pub is_file: bool,
    pub is_dir: bool,
    /// When it was last changed, in seconds behind the start of 1970.
    pub modified: Option<u64>,
}

/// An entry as mathematical data.
pub struct FoundRow {
    pub name: Seq<char>,
    pub path: Seq<char>,
    pub is_file: bool,
    pub is_dir: bool,
    pub modified: Option<u64>,
}

impl View for Found {
    type V = FoundRow;

    open spec fn view(&self) -> FoundRow {
        FoundRow {
            name: self.name@,
            path: self.path@,
            is_file: self.is_file,
            is_dir: self.is_dir,
            modified: self.modified,
        }
    }
}

pub open spec fn found_rows(v: Seq<Found>) -> Seq<FoundRow> {
    v.map_values(|f: Found| f@)
}

pub open spec fn found_opt(o: Option<Vec<Found>>) -> Option<Seq<FoundRow>> {
    match o {
        Some(v) => Some(found_rows(v@)),
        None => None,
    }
}

/// What directories hold, by their path.
pub type Dirs = spec_fn(Seq<char>) -> Option<Seq<FoundRow>>;

/// The listing gives what `dirs` says, whenever it is asked.
pub open spec fn lists_dirs<L: Fn(&str) -> Option<Vec<Found>>>(list: L, dirs: Dirs) -> bool {
    forall|p: &str, r: Option<Vec<Found>>| #[trigger]
        call_ensures(list, (p,), r) ==> found_opt(r) == dirs(p@)
}

/// The name has the extension `exe`, ASCII case aside, behind at least one character.
pub open spec fn is_exe(name: Seq<char>) -> bool {
    name.len() > 4 && has_suffix(ascii_lower(name), ".exe"@)
}

/// An entry is a program.
pub open spec fn holds_program(items: Seq<FoundRow>) -> bool {
    exists|i: int| 0 <= i < items.len() && (#[trigger] items[i]).is_file && is_exe(items[i].name)
}

/// A program lies in the directory, or below it as deep as allowed.
pub open spec fn has_program(dir: Seq<char>, depth: nat, dirs: Dirs) -> bool
    decreases depth,
{
    match dirs(dir) {
        None => false,
        Some(items) => holds_program(items) || (depth > 0 && exists|i: int|
            0 <= i < items.len() && !(#[trigger] items[i]).is_file && items[i].is_dir && has_program(
                items[i].path,
                (depth - 1) as nat,
                dirs,
            )),
    }
}

fn is_exe_name(name: &str) -> (r: bool)
    ensures
        r == is_exe(name@),
{
    let n = chars_of(name);
    n.len() > 4 && ends_with(lower_ascii(n.as_slice()).as_slice(), ".exe")
}

/// Whether a directory holds a program, at most `depth` levels below it.
pub fn contains_exe<L: Fn(&str) -> Option<Vec<Found>>>(dir: &str, depth: u32, list: &L) -> (r: bool)
    requires
        forall|p: &str| #[trigger] call_requires(*list, (p,)),
    ensures
        forall|dirs: Dirs|
            lists_dirs(*list, dirs) ==> r == #[trigger] has_program(dir@, depth as nat, dirs),
    decreases depth,
{
    let got = list(dir);
    let ghost shown = found_opt(got);
    let items = match got {
        Some(items) => items,
        None => {
            return false;
        },
    };
    let ghost all = found_rows(items@);
    let mut i: usize = 0;
    while i < items.len()
        invariant
            i <= items@.len(),
            all == found_rows(items@),
            shown == Some(all),
            forall|dirs: Dirs| #[trigger] lists_dirs(*list, dirs) ==> shown == dirs(dir@),
            forall|j: int|
                0 <= j < i ==> !((#[trigger] all[j]).is_file && is_exe(all[j].name)),
        decreases items@.len() - i,
    {
        assert(all[i as int] == items@[i as int]@);
        if items[i].is_file && is_exe_name(items[i].name.as_str()) {
            assert(holds_program(all));
            return true;
        }
        i = i + 1;
    }
    assert(!holds_program(all));
    if depth == 0 {
        return false;
    }
    let mut k: usize = 0;
    while k < items.len()
        invariant
            k <= items@.len(),
            all == found_rows(items@),
            shown == Some(all),
            depth > 0,
            !holds_program(all),
            forall|p: &str| #[trigger] call_requires(*list, (p,)),
            forall|dirs: Dirs| #[trigger] lists_dirs(*list, dirs) ==> shown == dirs(dir@),
            forall|j: int, dirs: Dirs|
                #![trigger all[j], lists_dirs(*list, dirs)]
                0 <= j < k && lists_dirs(*list, dirs) && !all[j].is_file && all[j].is_dir
                    ==> !has_program(all[j].path, (depth - 1) as nat, dirs),
        decreases items@.len() - k,
    {
        assert(all[k as int] == items@[k as int]@);
        if !items[k].is_file && items[k].is_dir {
            let below = contains_exe(items[k].path.as_str(), depth - 1, list);
            if below {
                assert forall|dirs: Dirs| lists_dirs(*list, dirs) implies #[trigger] has_program(
                    dir@,
                    depth as nat,
                    dirs,
                ) by {
                    assert(has_program(all[k as int].path, (depth - 1) as nat, dirs));
                    assert(dirs(dir@) == Some(all));
                }
                return true;
            }
        }
        k = k + 1;
    }
    assert forall|dirs: Dirs| lists_dirs(*list, dirs) implies !#[trigger] has_program(
        dir@,
        depth as nat,
        dirs,
    ) by {
        assert(dirs(dir@) == Some(all));
    }
    false
}

/// The text is the highest of the names of the directories, in the order of versions, `current` aside.
pub open spec fn is_version_of(version: Option<Seq<char>>, items: Seq<FoundRow>) -> bool {
    match version {
        Some(v) => {
            &&& exists|i: int| 0 <= i < items.len() && is_version_dir(#[trigger] items[i])
                && items[i].name == v
            &&& forall|i: int|
                0 <= i < items.len() && is_version_dir(#[trigger] items[i]) ==> version_le(
                    items[i].name,
                    v,
                )
        },
        None => forall|i: int| 0 <= i < items.len() ==> !is_version_dir(#[trigger] items[i]),
    }
}

/// The entry is the directory of a version.
pub open spec fn is_version_dir(item: FoundRow) -> bool {
    item.is_dir && item.name != "current"@
}

/// The highest of the names of the version directories, if there is one.
pub open spec fn highest_version(items: Seq<FoundRow>) -> Option<Seq<char>> {
    choose|v: Option<Seq<char>>| is_version_of(v, items)
}

proof fn lemma_highest_version(v: Option<Seq<char>>, items: Seq<FoundRow>)
    requires
        is_version_of(v, items),
    ensures
        v == highest_version(items),
{
    let h = highest_version(items);
    assert(is_version_of(h, items));
    if let Some(a) = v {
        let i = choose|i: int|
            0 <= i < items.len() && is_version_dir(#[trigger] items[i]) && items[i].name == a;
        assert(h is Some);
        let b = h->Some_0;
        let j = choose|j: int|
            0 <= j < items.len() && is_version_dir(#[trigger] items[j]) && items[j].name == b;
        assert(version_le(items[j].name, a) && version_le(items[i].name, b));
        lemma_version_le_antisym(a, b);
    }
}

/// Scoop keeps a directory for each version and a link `current`; the highest version is the
/// installed one.
pub fn scoop_version(items: &Vec<Found>) -> (r: Option<String>)
    ensures
        text_opt(r) == highest_version(found_rows(items@)),
        is_version_of(text_opt(r), found_rows(items@)),
{
    let ghost all = found_rows(items@);
    let mut best: Option<String> = None;
    for i in 0..items.len()
        invariant
            all == found_rows(items@),
            is_version_of(text_opt(best), all.take(i as int)),
    {
        let ghost front = all.take(i as int);
        let ghost next = all.take(i + 1);
        assert(all[i as int] == items@[i as int]@);
        assert(next[i as int] == all[i as int]);
        assert forall|j: int| 0 <= j < i implies next[j] == front[j] by {}
        let item = &items[i];
        let ghost before = text_opt(best);
        if item.is_dir && !str_eq(item.name.as_str(), "current") {
            let higher = match &best {
                None => true,
                Some(b) => not_above(
                    chars_of(b.as_str()).as_slice(),
                    chars_of(item.name.as_str()).as_slice(),
                ),
            };
            proof {
                if let Some(b) = before {
                    lemma_version_le_total(b, item.name@);
                    if version_le(b, item.name@) {
                        assert forall|j: int|
                            0 <= j < i && is_version_dir(#[trigger] next[j]) implies version_le(
                            next[j].name,
                            item.name@,
                        ) by {
                            assert(next[j] == front[j]);
                            lemma_version_le_trans(next[j].name, b, item.name@);
                        }
                    } else {
                        let k = choose|k: int|
                            0 <= k < front.len() && is_version_dir(#[trigger] front[k])
                                && front[k].name == b;
                        assert(next[k] == front[k]);
                    }
                }
                lemma_version_le_total(item.name@, item.name@);
            }
            if higher {
                best = Some(item.name.clone());
                assert(is_version_dir(next[i as int]) && next[i as int].name == item.name@);
            }
            assert(is_version_of(text_opt(best), next)) by {
                assert forall|j: int|
                    0 <= j < next.len() && is_version_dir(#[trigger] next[j]) implies version_le(
                    next[j].name,
                    text_opt(best)->Some_0,
                ) by {
                    if j < i {
                        assert(next[j] == front[j]);
                    }
                }
            }
        } else {
            proof {
                if let Some(b) = before {
                    let k = choose|k: int|
                        0 <= k < front.len() && is_version_dir(#[trigger] front[k])
                            && front[k].name == b;
                    assert(next[k] == front[k]);
                    assert forall|j: int|
                        0 <= j < next.len() && is_version_dir(#[trigger] next[j]) implies version_le(
                        next[j].name,
                        b,
                    ) by {
                        assert(next[j] == front[j]);
                    }
                } else {
                    assert forall|j: int| 0 <= j < next.len() implies !is_version_dir(
                        #[trigger] next[j],
                    ) by {
                        if j < i {
                            assert(next[j] == front[j]);
                        }
                    }
                }
            }
        }
    }
    assert(all.take(all.len() as int) =~= all);
    proof {
        lemma_highest_version(text_opt(best), all);
    }
    best
}

/// The path ends in `scoop` and `apps`, whatever separates them.
pub open spec fn is_scoop(p: PathRow) -> bool {
    let n = p.parts.len() as int;
    ||| n >= 2 && is_name(p.parts[n - 2], "scoop"@) && is_name(p.parts[n - 1], "apps"@)
    ||| n >= 1 && is_name(p.parts[n - 1], "scoop\\apps"@)
}

/// The part is that name.
pub open spec fn is_name(part: PartRow, name: Seq<char>) -> bool {
    part.kind == PartKind::Normal && part.text == name
}

/// What the file system answers: what directories hold, and how big entries are.
pub struct PortableWorld {
    pub dirs: Dirs,
    pub sizes: spec_fn(Seq<char>) -> u64,
}

/// Reading gives what `sizes` says, whenever it is asked.
pub open spec fn sizes_read<R: Fn(&str) -> Option<Node>>(
    read: R,
    sizes: spec_fn(Seq<char>) -> u64,
) -> bool {
    forall|p: &str, r: Option<Node>| #[trigger]
        call_ensures(read, (p,), r) ==> held(size_or_nothing(r)) == sizes(p@)
}

/// The entry is the directory of a portable application. Scoop's own directory is none.
pub open spec fn is_portable(item: FoundRow, scoop: bool, w: PortableWorld) -> bool {
    item.is_dir && has_program(item.path, 2, w.dirs) && !(scoop && item.name == "scoop"@)
}

/// The version of a portable application: scoop's directories tell it.
pub open spec fn portable_version(path: Seq<char>, scoop: bool, w: PortableWorld) -> Seq<char> {
    if scoop {
        match (w.dirs)(path) {
            Some(items) => match highest_version(items) {
                Some(v) => v,
                None => seq![],
            },
            None => seq![],
        }
    } else {
        seq![]
    }
}

/// The inventory entry of a portable application.
pub open spec fn portable_entry(item: FoundRow, scoop: bool, w: PortableWorld) -> AppRow {
    AppRow {
        name: item.name,
        version: portable_version(item.path, scoop, w),
        publisher: seq![],
        location: item.path,
        uninstall_string: seq![],
        reg_key: seq![],
        size_bytes: Some((w.sizes)(item.path)),
        install_date: match item.modified {
            Some(secs) => Some(day_of(secs as int)),
            None => None,
        },
        source: Source::Portable,
    }
}

/// The entries of the portable applications in a directory.
pub open spec fn portable_in(items: Seq<FoundRow>, scoop: bool, w: PortableWorld) -> Seq<AppRow>
    decreases items.len(),
{
    if items.len() == 0 {
        seq![]
    } else {
        let front = portable_in(items.drop_last(), scoop, w);
        if is_portable(items.last(), scoop, w) {
            front.push(portable_entry(items.last(), scoop, w))
        } else {
            front
        }
    }
}

/// The entries of the portable applications in a list of directories.
pub open spec fn portable_of(roots: Seq<PathRow>, w: PortableWorld) -> Seq<AppRow>
    decreases roots.len(),
{
    if roots.len() == 0 {
        seq![]
    } else {
        let front = portable_of(roots.drop_last(), w);
        match (w.dirs)(roots.last().text) {
            Some(items) => front + portable_in(items, is_scoop(roots.last()), w),
            None => front,
        }
    }
}

fn part_is(part: &crate::paths::Part, name: &str) -> (r: bool)
    ensures
        r == is_name(part@, name@),
{
    matches!(part.kind, PartKind::Normal) && str_eq(part.text.as_str(), name)
}

fn scoop_root(p: &PathParts) -> (r: bool)
    ensures
        r == is_scoop(p@),
{
    let n = p.parts.len();
    if n >= 2 && part_is(&p.parts[n - 2], "scoop") && part_is(&p.parts[n - 1], "apps") {
        return true;
    }
    n >= 1 && part_is(&p.parts[n - 1], "scoop\\apps")
}

fn version_of<L: Fn(&str) -> Option<Vec<Found>>>(path: &str, scoop: bool, list: &L) -> (r: String)
    requires
        forall|p: &str| #[trigger] call_requires(*list, (p,)),
    ensures
        forall|w: PortableWorld|
            lists_dirs(*list, w.dirs) ==> r@ == #[trigger] portable_version(path@, scoop, w),
{
    let none = String::new();
    assert(none@ =~= Seq::<char>::empty());
    if !scoop {
        return none;
    }
    match list(path) {
        None => none,
        Some(items) => match scoop_version(&items) {
            Some(v) => v,
            None => none,
        },
    }
}

/// Adds the portable applications among the entries of a directory.
fn add_portable<L: Fn(&str) -> Option<Vec<Found>>, R: Fn(&str) -> Option<Node>>(
    out: &mut Vec<AppEntry>,
    items: &Vec<Found>,
    scoop: bool,
    list: &L,
    read: &R,
)
    requires
        forall|p: &str| #[trigger] call_requires(*list, (p,)),
        forall|p: &str| #[trigger] call_requires(*read, (p,)),
    ensures
        forall|w: PortableWorld|
            lists_dirs(*list, w.dirs) && sizes_read(*read, w.sizes) ==> app_rows(final(out)@)
                == app_rows(old(out)@) + #[trigger] portable_in(found_rows(items@), scoop, w),
{
    let ghost before = app_rows(out@);
    let ghost all = found_rows(items@);
    let mut i: usize = 0;
    assert(all.take(0) =~= Seq::<FoundRow>::empty());
    assert(before + Seq::<AppRow>::empty() =~= before);
    while i < items.len()
        invariant
            i <= items@.len(),
            all == found_rows(items@),
            forall|p: &str| #[trigger] call_requires(*list, (p,)),
            forall|p: &str| #[trigger] call_requires(*read, (p,)),
            forall|w: PortableWorld|
                lists_dirs(*list, w.dirs) && sizes_read(*read, w.sizes) ==> app_rows(out@) == before
                    + #[trigger] portable_in(all.take(i as int), scoop, w),
        decreases items@.len() - i,
    {
        let item = &items[i];
        let ghost sofar = app_rows(out@);
        assert(all.take(i + 1).drop_last() =~= all.take(i as int));
        assert(all.take(i + 1).last() == item@);
        let programs = item.is_dir && contains_exe(item.path.as_str(), 2, list);
        if programs && !(scoop && str_eq(item.name.as_str(), "scoop")) {
            let version = version_of(item.path.as_str(), scoop, list);
            let found = read(item.path.as_str());
            let size = entry_size(&found);
            let install_date = match item.modified {
                Some(secs) => Some(day_from_unix(secs)),
                None => None,
            };
            let app = AppEntry {
                name: item.name.clone(),
                version,
                publisher: String::new(),
                location: item.path.clone(),
                uninstall_string: String::new(),
                reg_key: String::new(),
                size_bytes: Some(size),
                install_date,
                source: Source::Portable,
            };
            assert(app@.publisher =~= Seq::<char>::empty());
            assert(app@.uninstall_string =~= Seq::<char>::empty());
            assert(app@.reg_key =~= Seq::<char>::empty());
            push_app(out, app);
            assert forall|w: PortableWorld|
                lists_dirs(*list, w.dirs) && sizes_read(*read, w.sizes) implies app_rows(out@)
                == before + #[trigger] portable_in(all.take(i + 1), scoop, w) by {
                assert(sofar == before + portable_in(all.take(i as int), scoop, w));
                assert(has_program(item@.path, 2, w.dirs));
                assert(version@ == portable_version(item@.path, scoop, w));
                assert(size == (w.sizes)(item@.path));
                assert(app@ == portable_entry(item@, scoop, w));
                assert(app_rows(out@) =~= before + portable_in(all.take(i + 1), scoop, w));
            }
        } else {
            assert forall|w: PortableWorld|
                lists_dirs(*list, w.dirs) && sizes_read(*read, w.sizes) implies app_rows(out@)
                == before + #[trigger] portable_in(all.take(i + 1), scoop, w) by {
                assert(sofar == before + portable_in(all.take(i as int), scoop, w));
                if item@.is_dir {
                    assert(programs == has_program(item@.path, 2, w.dirs));
                }
            }
        }
        i = i + 1;
    }
    assert(all.take(all.len() as int) =~= all);
}

/// The portable applications in a list of directories. `list` reads a directory, `read` everything at
/// a path.
pub fn portable_apps<L: Fn(&str) -> Option<Vec<Found>>, R: Fn(&str) -> Option<Node>>(
    roots: &Vec<PathParts>,
    list: &L,
    read: &R,
) -> (r: Vec<AppEntry>)
    requires
        forall|p: &str| #[trigger] call_requires(*list, (p,)),
        forall|p: &str| #[trigger] call_requires(*read, (p,)),
    ensures
        forall|w: PortableWorld|
            lists_dirs(*list, w.dirs) && sizes_read(*read, w.sizes) ==> app_rows(r@)
                == #[trigger] portable_of(crate::paths::path_list(roots@), w),
{
    let mut out = no_apps();
    let ghost all = crate::paths::path_list(roots@);
    let mut i: usize = 0;
    assert(all.take(0) =~= Seq::<PathRow>::empty());
    while i < roots.len()
        invariant
            i <= roots@.len(),
            all == crate::paths::path_list(roots@),
            forall|p: &str| #[trigger] call_requires(*list, (p,)),
            forall|p: &str| #[trigger] call_requires(*read, (p,)),
            forall|w: PortableWorld|
                lists_dirs(*list, w.dirs) && sizes_read(*read, w.sizes) ==> app_rows(out@)
                    == #[trigger] portable_of(all.take(i as int), w),
        decreases roots@.len() - i,
    {
        let root = &roots[i];
        let ghost sofar = app_rows(out@);
        assert(all.take(i + 1).drop_last() =~= all.take(i as int));
        assert(all.take(i + 1).last() == root@);
        let scoop = scoop_root(root);
        let got = list(root.text.as_str());
        let ghost shown = found_opt(got);
        if let Some(items) = got {
            add_portable(&mut out, &items, scoop, list, read);
            assert forall|w: PortableWorld|
                lists_dirs(*list, w.dirs) && sizes_read(*read, w.sizes) implies app_rows(out@)
                == #[trigger] portable_of(all.take(i + 1), w) by {
                assert(sofar == portable_of(all.take(i as int), w));
                assert(shown == (w.dirs)(root@.text));
                assert(app_rows(out@) == sofar + portable_in(found_rows(items@), scoop, w));
            }
        } else {
            assert forall|w: PortableWorld|
                lists_dirs(*list, w.dirs) && sizes_read(*read, w.sizes) implies app_rows(out@)
                == #[trigger] portable_of(all.take(i + 1), w) by {
                assert(sofar == portable_of(all.take(i as int), w));
                assert(shown == (w.dirs)(root@.text));
            }
        }
        i = i + 1;
    }
    assert(all.take(all.len() as int) =~= all);
    out
}

// ---------------------------------------------------------------------------
// Laws
// ---------------------------------------------------------------------------

/// The key stands for an application of its own: it has a name, is neither a component of the system nor
/// a part of another entry, and is no update.
pub open spec fn is_application(r: RawApp) -> bool {
    &&& r.display_name@.len() > 0
    &&& !crate::text::is_space(r.display_name@[0])
    &&& r.system_component != Some(1u32)
    &&& r.parent_key_name@.len() == 0
    &&& r.parent_display_name@.len() == 0
    &&& r.release_type@ != "Security Update"@
    &&& r.release_type@ != "Update Rollup"@
    &&& r.release_type@ != "Hotfix"@
    &&& r.release_type@ != "ServicePack"@
}

proof fn lemma_name_stays(s: Seq<char>)
    requires
        s.len() > 0,
        !crate::text::is_space(s[0]),
    ensures
        trimmed(s).len() > 0,
{
    crate::text::lemma_run_len(s, |c: char| crate::text::is_space(c), 0);
    assert(s.skip(0) =~= s);
    lemma_end_stays(s);
}

proof fn lemma_end_stays(s: Seq<char>)
    requires
        s.len() > 0,
        !crate::text::is_space(s[0]),
    ensures
        crate::text::trimmed_end(s).len() > 0,
    decreases s.len(),
{
    if crate::text::is_space(s.last()) {
        assert(s.drop_last()[0] == s[0]);
        lemma_end_stays(s.drop_last());
    }
}

/// Every application of the registry is listed with what its key says: its name, version, publisher and
/// place, its size in bytes, and the command that removes it, the silent one where there is one.
pub proof fn registered_applications_are_listed(s: Seq<RawApp>, i: int) -> (k: int)
    requires
        0 <= i < s.len(),
        is_application(s[i]),
    ensures
        0 <= k < raw_entries(s).len(),
        ({
            let a = raw_entries(s)[k];
            let r = s[i];
            &&& a.name == r.display_name@
            &&& a.version == r.display_version@
            &&& a.publisher == r.publisher@
            &&& a.location == r.install_location@
            &&& a.source == r.source
            &&& r.quiet_uninstall_string@.len() > 0 ==> a.uninstall_string
                == r.quiet_uninstall_string@
            &&& r.quiet_uninstall_string@.len() == 0 ==> a.uninstall_string == r.uninstall_string@
            &&& r.estimated_size is None ==> a.size_bytes is None
            &&& (r.estimated_size matches Some(kb) ==> a.size_bytes is Some && a.size_bytes->0 == kb
                * 1024)
        }),
    decreases s.len(),
{
    let front = raw_entries(s.drop_last());
    if i < s.len() - 1 {
        assert(s.drop_last()[i] == s[i]);
        registered_applications_are_listed(s.drop_last(), i)
    } else {
        lemma_name_stays(s[i].display_name@);
        assert(!raw_hidden(s.last()));
        front.len() as int
    }
}

/// A key without a name, a component of the system, a part of another entry and an update are not listed;
/// keys are read one by one and in order.
pub proof fn what_is_no_application_is_left_out(s: Seq<RawApp>, t: Seq<RawApp>, r: RawApp)
    ensures
        raw_entries(s + t) == raw_entries(s) + raw_entries(t),
        r.display_name@.len() == 0 || r.system_component == Some(1u32) || r.parent_key_name@.len()
            > 0 || r.parent_display_name@.len() > 0 || r.release_type@ == "Security Update"@
            || r.release_type@ == "Update Rollup"@ || r.release_type@ == "Hotfix"@ || r.release_type@
            == "ServicePack"@ ==> raw_entries(s.push(r)) == raw_entries(s),
    decreases t.len(),
{
    assert(s.push(r).drop_last() =~= s);
    if r.display_name@.len() == 0 {
        crate::text::lemma_nothing_to_trim(r.display_name@);
    }
    if t.len() > 0 {
        what_is_no_application_is_left_out(s, t.drop_last(), r);
        assert((s + t).drop_last() =~= s + t.drop_last());
        assert(raw_entries(s + t) =~= raw_entries(s) + raw_entries(t));
    } else {
        assert(s + t =~= s);
        assert(raw_entries(s) + raw_entries(t) =~= raw_entries(s));
    }
}

/// Eight digits are a date: the year, the month and the day, with hyphens between them. Nothing else is.
pub proof fn dates_are_eight_digits(year: Seq<char>, month: Seq<char>, day: Seq<char>)
    requires
        all_digits(year + month + day),
    ensures
        year.len() == 4 && month.len() == 2 && day.len() == 2 ==> dashed_date(year + month + day)
            == Some(year + seq!['-'] + month + seq!['-'] + day),
        (year + month + day).len() != 8 ==> dashed_date(year + month + day) is None,
{
    let t = year + month + day;
    assert forall|i: int| 0 <= i < t.len() implies !crate::text::is_space(#[trigger] t[i]) by {
        assert(is_digit(t[i]));
    }
    crate::text::lemma_nothing_to_trim(t);
    if year.len() == 4 && month.len() == 2 && day.len() == 2 {
        assert(t.subrange(0, 4) =~= year);
        assert(t.subrange(4, 6) =~= month);
        assert(t.subrange(6, 8) =~= day);
        reveal_strlit("-");
        assert("-"@ =~= seq!['-']);
    }
}

/// The entry is a program: a file whose name ends in `.exe`, case aside, behind at least one character.
pub open spec fn is_program(item: FoundRow) -> bool {
    let n = item.name.len();
    &&& item.is_file
    &&& n > 4
    &&& item.name[n - 4] == '.'
    &&& item.name[n - 3] == 'e' || item.name[n - 3] == 'E'
    &&& item.name[n - 2] == 'x' || item.name[n - 2] == 'X'
    &&& item.name[n - 1] == 'e' || item.name[n - 1] == 'E'
}

/// The directory can be read and has a program at the place.
pub open spec fn program_at(dirs: Dirs, dir: Seq<char>, i: int) -> bool {
    dirs(dir) is Some && 0 <= i < dirs(dir)->0.len() && is_program(dirs(dir)->0[i])
}

/// The directory can be read and has a directory at the place.
pub open spec fn dir_at(dirs: Dirs, dir: Seq<char>, i: int) -> bool {
    dirs(dir) is Some && 0 <= i < dirs(dir)->0.len() && !dirs(dir)->0[i].is_file
        && dirs(dir)->0[i].is_dir
}

/// The path of an entry.
pub open spec fn path_at(dirs: Dirs, dir: Seq<char>, i: int) -> Seq<char> {
    dirs(dir)->0[i].path
}

proof fn lemma_program(item: FoundRow)
    ensures
        is_program(item) == (item.is_file && is_exe(item.name)),
{
    reveal_strlit(".exe");
    let low = ascii_lower(item.name);
    let n = item.name.len() as int;
    if n > 4 {
        let end = low.subrange(n - 4, n);
        assert(end[0] == low[n - 4] && end[1] == low[n - 3] && end[2] == low[n - 2] && end[3] == low[n
            - 1]);
        if is_program(item) {
            assert(end =~= ".exe"@);
        }
    }
}

proof fn lemma_holds_program(dirs: Dirs, dir: Seq<char>)
    ensures
        dirs(dir) is Some && holds_program(dirs(dir)->0) <==> exists|i: int| program_at(dirs, dir, i),
{
    if dirs(dir) is Some && holds_program(dirs(dir)->0) {
        let items = dirs(dir)->0;
        let i = choose|i: int|
            0 <= i < items.len() && (#[trigger] items[i]).is_file && is_exe(items[i].name);
        lemma_program(items[i]);
        assert(program_at(dirs, dir, i));
    }
    if exists|i: int| program_at(dirs, dir, i) {
        let i = choose|i: int| program_at(dirs, dir, i);
        lemma_program(dirs(dir)->0[i]);
    }
}

/// A directory is taken for a portable application where a program lies in it, in a directory of it, or
/// in a directory of that, and where none lies there it is not.
pub proof fn programs_are_looked_for_two_levels_deep(dirs: Dirs, dir: Seq<char>)
    ensures
        has_program(dir, 2, dirs) <==> {
            ||| exists|i: int| program_at(dirs, dir, i)
            ||| exists|i: int, j: int|
                #[trigger] dir_at(dirs, dir, i) && #[trigger] program_at(
                    dirs,
                    path_at(dirs, dir, i),
                    j,
                )
            ||| exists|i: int, j: int, k: int|
                dir_at(dirs, dir, i) && #[trigger] dir_at(dirs, path_at(dirs, dir, i), j)
                    && #[trigger] program_at(
                    dirs,
                    path_at(dirs, path_at(dirs, dir, i), j),
                    k,
                )
        },
{
    lemma_holds_program(dirs, dir);
    lemma_deeper(dirs, dir, 1);
    assert forall|i: int| dir_at(dirs, dir, i) implies (#[trigger] has_program(
        path_at(dirs, dir, i),
        1,
        dirs,
    ) <==> {
        ||| exists|j: int| program_at(dirs, path_at(dirs, dir, i), j)
        ||| exists|j: int, k: int|
            #[trigger] dir_at(dirs, path_at(dirs, dir, i), j) && #[trigger] program_at(
                dirs,
                path_at(dirs, path_at(dirs, dir, i), j),
                k,
            )
    }) by {
        lemma_one_deep(dirs, path_at(dirs, dir, i));
    }
    if has_program(dir, 2, dirs) && !(exists|i: int| program_at(dirs, dir, i)) {
        let i = choose|i: int|
            dir_at(dirs, dir, i) && #[trigger] has_program(path_at(dirs, dir, i), 1, dirs);
        assert(dir_at(dirs, dir, i));
    }
    if exists|i: int, j: int|
        #[trigger] dir_at(dirs, dir, i) && #[trigger] program_at(dirs, path_at(dirs, dir, i), j) {
        let (i, j) = choose|i: int, j: int|
            #[trigger] dir_at(dirs, dir, i) && #[trigger] program_at(
                dirs,
                path_at(dirs, dir, i),
                j,
            );
        assert(has_program(path_at(dirs, dir, i), 1, dirs));
    }
    if exists|i: int, j: int, k: int|
        dir_at(dirs, dir, i) && #[trigger] dir_at(dirs, path_at(dirs, dir, i), j)
            && #[trigger] program_at(dirs, path_at(dirs, path_at(dirs, dir, i), j), k) {
        let (i, j, k) = choose|i: int, j: int, k: int|
            dir_at(dirs, dir, i) && #[trigger] dir_at(dirs, path_at(dirs, dir, i), j)
                && #[trigger] program_at(dirs, path_at(dirs, path_at(dirs, dir, i), j), k);
        assert(has_program(path_at(dirs, dir, i), 1, dirs));
    }
}

proof fn lemma_deeper(dirs: Dirs, dir: Seq<char>, n: nat)
    ensures
        has_program(dir, n + 1, dirs) <==> {
            ||| exists|i: int| program_at(dirs, dir, i)
            ||| exists|i: int|
                dir_at(dirs, dir, i) && #[trigger] has_program(path_at(dirs, dir, i), n, dirs)
        },
{
    lemma_holds_program(dirs, dir);
    if let Some(items) = dirs(dir) {
        if exists|i: int|
            0 <= i < items.len() && !(#[trigger] items[i]).is_file && items[i].is_dir && has_program(
                items[i].path,
                n,
                dirs,
            ) {
            let i = choose|i: int|
                0 <= i < items.len() && !(#[trigger] items[i]).is_file && items[i].is_dir
                    && has_program(items[i].path, n, dirs);
            assert(dir_at(dirs, dir, i) && has_program(path_at(dirs, dir, i), n, dirs));
        }
    }
}

proof fn lemma_one_deep(dirs: Dirs, dir: Seq<char>)
    ensures
        has_program(dir, 1, dirs) <==> {
            ||| exists|j: int| program_at(dirs, dir, j)
            ||| exists|j: int, k: int|
                #[trigger] dir_at(dirs, dir, j) && #[trigger] program_at(
                    dirs,
                    path_at(dirs, dir, j),
                    k,
                )
        },
{
    lemma_deeper(dirs, dir, 0);
    assert forall|j: int| dir_at(dirs, dir, j) implies (#[trigger] has_program(
        path_at(dirs, dir, j),
        0,
        dirs,
    ) <==> exists|k: int| program_at(dirs, path_at(dirs, dir, j), k)) by {
        lemma_holds_program(dirs, path_at(dirs, dir, j));
    }
    if exists|j: int, k: int|
        #[trigger] dir_at(dirs, dir, j) && #[trigger] program_at(dirs, path_at(dirs, dir, j), k) {
        let (j, k) = choose|j: int, k: int|
            #[trigger] dir_at(dirs, dir, j) && #[trigger] program_at(
                dirs,
                path_at(dirs, dir, j),
                k,
            );
        assert(has_program(path_at(dirs, dir, j), 0, dirs));
    }
}

/// Every directory with a program, in each of the roots that can be read, is listed as a portable
/// application under its own name and place and with its size, whatever the other roots hold; only
/// scoop's own directory is none.
pub proof fn portable_applications_are_listed(
    roots: Seq<PathRow>,
    w: PortableWorld,
    r: int,
    i: int,
) -> (k: int)
    requires
        0 <= r < roots.len(),
        (w.dirs)(roots[r].text) is Some,
        0 <= i < (w.dirs)(roots[r].text)->0.len(),
        ({
            let item = (w.dirs)(roots[r].text)->0[i];
            &&& item.is_dir
            &&& item.name != "scoop"@
            &&& has_program(item.path, 2, w.dirs)
        }),
    ensures
        0 <= k < portable_of(roots, w).len(),
        ({
            let a = portable_of(roots, w)[k];
            let item = (w.dirs)(roots[r].text)->0[i];
            &&& a.name == item.name
            &&& a.location == item.path
            &&& a.size_bytes == Some((w.sizes)(item.path))
            &&& a.source == Source::Portable
        }),
    decreases roots.len(),
{
    let front = portable_of(roots.drop_last(), w);
    if r < roots.len() - 1 {
        assert(roots.drop_last()[r] == roots[r]);
        portable_applications_are_listed(roots.drop_last(), w, r, i)
    } else {
        let items = (w.dirs)(roots[r].text)->0;
        let m = lemma_portable_place(items, is_scoop(roots[r]), w, i);
        front.len() + m
    }
}

proof fn lemma_portable_place(items: Seq<FoundRow>, scoop: bool, w: PortableWorld, i: int) -> (k: int)
    requires
        0 <= i < items.len(),
        is_portable(items[i], scoop, w),
    ensures
        0 <= k < portable_in(items, scoop, w).len(),
        portable_in(items, scoop, w)[k] == portable_entry(items[i], scoop, w),
    decreases items.len(),
{
    if i < items.len() - 1 {
        assert(items.drop_last()[i] == items[i]);
        lemma_portable_place(items.drop_last(), scoop, w, i)
    } else {
        portable_in(items.drop_last(), scoop, w).len() as int
    }
}

/// Roots are read one by one and in order, and so are the entries of a root.
pub proof fn portable_roots_are_read_one_by_one(
    a: Seq<PathRow>,
    b: Seq<PathRow>,
    s: Seq<FoundRow>,
    t: Seq<FoundRow>,
    scoop: bool,
    w: PortableWorld,
)
    ensures
        portable_of(a + b, w) == portable_of(a, w) + portable_of(b, w),
        portable_in(s + t, scoop, w) == portable_in(s, scoop, w) + portable_in(t, scoop, w),
    decreases b.len() + t.len(),
{
    if b.len() > 0 {
        portable_roots_are_read_one_by_one(a, b.drop_last(), s, t, scoop, w);
        assert((a + b).drop_last() =~= a + b.drop_last());
        assert(portable_of(a + b, w) =~= portable_of(a, w) + portable_of(b, w));
    } else {
        assert(a + b =~= a);
        assert(portable_of(a, w) + portable_of(b, w) =~= portable_of(a, w));
    }
    if t.len() > 0 {
        portable_roots_are_read_one_by_one(a, b, s, t.drop_last(), scoop, w);
        assert((s + t).drop_last() =~= s + t.drop_last());
        assert(portable_in(s + t, scoop, w) =~= portable_in(s, scoop, w) + portable_in(t, scoop, w));
    } else {
        assert(s + t =~= s);
        assert(portable_in(s, scoop, w) + portable_in(t, scoop, w) =~= portable_in(s, scoop, w));
    }
}

/// Portable applications are looked for where users and scoop put them: in `Programs` of the local data,
/// in `scoop` and `apps` and in `PortableApps` of the user, and on Windows in `C:\PortableApps`.
pub proof fn portable_places_are_the_usual_ones(env: Env, windows: bool)
    ensures
        env("LOCALAPPDATA"@) matches Some(l) ==> portable_places(env).contains(
            seq![l, "Programs"@],
        ),
        env("USERPROFILE"@) matches Some(p) ==> portable_places(env).contains(
            seq![p, "scoop"@, "apps"@],
        ) && portable_places(env).contains(seq![p, "PortableApps"@]),
        portable_places(env).len() == (if env("LOCALAPPDATA"@) is Some {
            1int
        } else {
            0
        }) + (if env("USERPROFILE"@) is Some {
            2int
        } else {
            0
        }),
        windows_place(true) == seq!["C:\\PortableApps"@],
        windows_place(false).len() == 0,
{
    let all = portable_places(env);
    let n: int = if env("LOCALAPPDATA"@) is Some {
        1
    } else {
        0
    };
    if let Some(l) = env("LOCALAPPDATA"@) {
        assert(all[0] == seq![l, "Programs"@]);
    }
    if let Some(p) = env("USERPROFILE"@) {
        assert(all[n] == seq![p, "scoop"@, "apps"@]);
        assert(all[n + 1] == seq![p, "PortableApps"@]);
    }
}

/// Every line of the user's list that is neither blank nor a comment names a directory, wherever it
/// stands.
pub proof fn listed_lines_name_directories(a: Seq<char>, line: Seq<char>, b: Seq<char>)
    requires
        line.len() > 0,
        !line.contains('\n'),
        !crate::text::is_space(line[0]),
        !crate::text::is_space(line.last()),
        line[0] != '#',
    ensures
        listed_dirs(lines_of(a + seq!['\n'] + line + seq!['\n'] + b)).contains(line),
{
    assert(line.last() != '\r');
    crate::text::lines_stand_between_line_feeds(a, line, b);
    let all = lines_of(a + seq!['\n'] + line + seq!['\n'] + b);
    let k = choose|k: int| 0 <= k < all.len() && all[k] == line;
    lemma_listed(all, k);
}

proof fn lemma_listed(lines: Seq<Seq<char>>, k: int)
    requires
        0 <= k < lines.len(),
        lines[k].len() > 0,
        !crate::text::is_space(lines[k][0]),
        !crate::text::is_space(lines[k].last()),
        lines[k][0] != '#',
    ensures
        listed_dirs(lines).contains(lines[k]),
    decreases lines.len(),
{
    let front = listed_dirs(lines.drop_last());
    let all = listed_dirs(lines);
    if k < lines.len() - 1 {
        assert(lines.drop_last()[k] == lines[k]);
        lemma_listed(lines.drop_last(), k);
        let i = choose|i: int| 0 <= i < front.len() && front[i] == lines[k];
        assert(all[i] == lines[k]);
    } else {
        let l = lines[k];
        crate::text::lemma_nothing_to_trim(l);
        reveal_strlit("#");
        assert("#"@.len() == 1 && "#"@[0] == '#');
        assert(!has_prefix(l, "#"@)) by {
            assert(l.subrange(0, 1)[0] == l[0]);
        }
        assert(all[front.len() as int] == l);
    }
}

/// The version of an application of scoop is the name of the highest of its version directories, in the
/// order of versions; `current`, which is no version, is not looked at.
pub proof fn scoop_tells_the_highest_version(
    items: Seq<FoundRow>,
    path: Seq<char>,
    w: PortableWorld,
    v: Option<Seq<char>>,
    i: int,
)
    requires
        (w.dirs)(path) == Some(items),
        is_version_of(v, items),
        0 <= i < items.len(),
        items[i].is_dir,
        items[i].name != "current"@,
    ensures
        version_le(items[i].name, portable_version(path, true, w)),
        exists|k: int|
            0 <= k < items.len() && (#[trigger] items[k]).is_dir && items[k].name != "current"@
                && items[k].name == portable_version(path, true, w),
        portable_version(path, false, w).len() == 0,
{
    lemma_highest_version(v, items);
    assert(is_version_dir(items[i]));
    let h = v->0;
    assert(version_le(items[i].name, h));
    let k = choose|k: int| 0 <= k < items.len() && is_version_dir(#[trigger] items[k]) && items[k].name == h;
    assert(items[k].name == h);
}

/// A root of scoop is told by its last two names, `scoop` and `apps`.
pub proof fn scoop_roots_end_in_scoop_and_apps(p: PathRow)
    requires
        p.parts.len() >= 2,
        p.parts[p.parts.len() - 2].kind == PartKind::Normal,
        p.parts[p.parts.len() - 2].text == "scoop"@,
        p.parts[p.parts.len() - 1].kind == PartKind::Normal,
        p.parts[p.parts.len() - 1].text == "apps"@,
    ensures
        is_scoop(p),
{
}

/// Installed applications are read from all three places: of the machine, of 32-bit programs on it, and
/// of the user.
pub proof fn all_hives_are_read(v: Vec<Hive>)
    requires
        call_ensures(hives, (), v),
    ensures
        v@.len() == 3,
        v@[0].root == Root::Machine && v@[0].source == Source::Machine,
        v@[1].root == Root::Machine && v@[1].source == Source::Machine32,
        v@[2].root == Root::User && v@[2].source == Source::User,
        v@[0].path@ == "SOFTWARE\\Microsoft\\Windows\\CurrentVersion\\Uninstall"@,
        v@[1].path@ == "SOFTWARE\\WOW6432Node\\Microsoft\\Windows\\CurrentVersion\\Uninstall"@,
        v@[2].path@ == v@[0].path@,
{
    let rows = v@.map_values(|h: Hive| h@);
    assert(rows.len() == 3);
    assert(rows[0] == v@[0]@ && rows[1] == v@[1]@ && rows[2] == v@[2]@);
}

} // verus!
