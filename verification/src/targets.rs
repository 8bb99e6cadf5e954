//! The catalog of cleaning targets: plain data, and the expansion of its path templates.
//!
//! The catalog is a table of path templates with `%VAR%` references and `*` wildcards. Expansion
//! resolves them against an environment and a file system that the caller answers for. A template
//! whose variable is unset yields no target, which keeps the table portable.

use vstd::prelude::*;
use vstd::slice::slice_subrange;

use crate::text::{
    append, ascii_lower, chars_of, copy_texts, ends_with, find_char, has_char, has_prefix,
    has_suffix, lower_ascii, folded, no_texts, position, push_text, replace, replaced, rows,
    same, same_str, split_char, split_on, starts_with, str_eq, string_of, text_opt, texts,
};

pub use crate::glob::wildcard_match;

verus! {

/// What a target belongs to.
#[derive(Clone, Copy, PartialEq, Eq, Debug, Structural)]
pub enum Category {
    Temp,
    System,
    Browser,
    Dev,
    Apps,
}

/// The category that a name stands for, ASCII case aside.
pub open spec fn category_named(s: Seq<char>) -> Option<Category> {
    let n = ascii_lower(s);
    if n == "temp"@ {
        Some(Category::Temp)
    } else if n == "system"@ {
        Some(Category::System)
    } else if n == "browser"@ || n == "browsers"@ {
        Some(Category::Browser)
    } else if n == "dev"@ {
        Some(Category::Dev)
    } else if n == "apps"@ || n == "app"@ {
        Some(Category::Apps)
    } else {
        None
    }
}

/// All categories, in display order.
pub open spec fn all_categories() -> Seq<Category> {
    seq![Category::Temp, Category::System, Category::Browser, Category::Dev, Category::Apps]
}

impl Category {
    pub const ALL: [Category; 5] = [
        Category::Temp,
        Category::System,
        Category::Browser,
        Category::Dev,
        Category::Apps,
    ];

    /// The heading of the category.
    pub open spec fn label_text(self) -> Seq<char> {
        match self {
            Category::Temp => "Temp"@,
            Category::System => "System"@,
            Category::Browser => "Browser"@,
            Category::Dev => "Dev"@,
            Category::Apps => "Apps"@,
        }
    }

    /// The word that selects the category.
    pub open spec fn key_text(self) -> Seq<char> {
        match self {
            Category::Temp => "temp"@,
            Category::System => "system"@,
            Category::Browser => "browser"@,
            Category::Dev => "dev"@,
            Category::Apps => "apps"@,
        }
    }

    pub fn parse(s: &str) -> (r: Option<Category>)
        ensures
            r == category_named(s@),
    {
        let n = lower_ascii(chars_of(s).as_slice());
        if same_str(n.as_slice(), "temp") {
            Some(Category::Temp)
        } else if same_str(n.as_slice(), "system") {
            Some(Category::System)
        } else if same_str(n.as_slice(), "browser") || same_str(n.as_slice(), "browsers") {
            Some(Category::Browser)
        } else if same_str(n.as_slice(), "dev") {
            Some(Category::Dev)
        } else if same_str(n.as_slice(), "apps") || same_str(n.as_slice(), "app") {
            Some(Category::Apps)
        } else {
            None
        }
    }

    pub fn label(self) -> (r: &'static str)
        ensures
            r@ == self.label_text(),
    {
        match self {
            Category::Temp => "Temp",
            Category::System => "System",
            Category::Browser => "Browser",
            Category::Dev => "Dev",
            Category::Apps => "Apps",
        }
    }

    pub fn key(self) -> (r: &'static str)
        ensures
            r@ == self.key_text(),
    {
        match self {
            Category::Temp => "temp",
            Category::System => "system",
            Category::Browser => "browser",
            Category::Dev => "dev",
            Category::Apps => "apps",
        }
    }
}

/// How a resolved path is cleaned.
#[derive(Clone, Copy, PartialEq, Eq, Debug, Structural)]
pub enum Mode {
    /// Delete the children of the directory, keep the directory itself.
    Contents,
    /// Delete the matched entry itself (used for wildcard file targets).
    Entry,
}

/// One row of the catalog.
#[derive(Clone, Copy)]
pub struct TargetSpec {
    pub category: Category,
    pub name: &'static str,
    pub template: &'static str,
    pub mode: Mode,
}

/// A row of the catalog as mathematical data.
pub struct TargetRow {
    pub category: Category,
    pub name: Seq<char>,
    pub template: Seq<char>,
    pub mode: Mode,
}

impl View for TargetSpec {
    type V = TargetRow;

    open spec fn view(&self) -> TargetRow {
        TargetRow {
            category: self.category,
            name: self.name@,
            template: self.template@,
            mode: self.mode,
        }
    }
}

/// The rows of a list of targets.
pub open spec fn target_rows(v: Seq<TargetSpec>) -> Seq<TargetRow> {
    v.map_values(|t: TargetSpec| t@)
}

pub open spec fn row(
    category: Category,
    name: Seq<char>,
    template: Seq<char>,
    mode: Mode,
) -> TargetRow {
    TargetRow { category, name, template, mode }
}

/// The Windows cleaning knowledge base: category, name, template and mode. Templates use `\` separators
/// and `%VAR%` environment references; `*` matches one path segment, or part of one.
///
/// Left out on purpose, being expensive to download again: `.m2/repository`, `.gradle/caches`,
/// `.nuget/packages` and the pnpm store.
pub const TARGETS: [(Category, &'static str, &'static str, Mode); 39] = [
    (Category::Temp, "User temp", "%TEMP%", Mode::Contents),
    (Category::Temp, "Windows temp", "%SystemRoot%\\Temp", Mode::Contents),
    (Category::System, "Thumbnail cache", "%LOCALAPPDATA%\\Microsoft\\Windows\\Explorer\\thumbcache_*.db", Mode::Entry),
    (Category::System, "Icon cache", "%LOCALAPPDATA%\\Microsoft\\Windows\\Explorer\\iconcache_*.db", Mode::Entry),
    (Category::System, "Internet cache (INetCache)", "%LOCALAPPDATA%\\Microsoft\\Windows\\INetCache", Mode::Contents),
    (Category::System, "Crash dumps", "%LOCALAPPDATA%\\CrashDumps", Mode::Contents),
    (Category::System, "Error reports (WER archive)", "%LOCALAPPDATA%\\Microsoft\\Windows\\WER\\ReportArchive", Mode::Contents),
    (Category::System, "Error reports (WER queue)", "%LOCALAPPDATA%\\Microsoft\\Windows\\WER\\ReportQueue", Mode::Contents),
    (Category::System, "DirectX shader cache", "%LOCALAPPDATA%\\D3DSCache", Mode::Contents),
    (Category::System, "NVIDIA DX shader cache", "%LOCALAPPDATA%\\NVIDIA\\DXCache", Mode::Contents),
    (Category::System, "NVIDIA GL shader cache", "%LOCALAPPDATA%\\NVIDIA\\GLCache", Mode::Contents),
    (Category::System, "AMD DX shader cache", "%LOCALAPPDATA%\\AMD\\DxCache", Mode::Contents),
    (Category::Browser, "Chrome cache", "%LOCALAPPDATA%\\Google\\Chrome\\User Data\\*\\Cache", Mode::Contents),
    (Category::Browser, "Chrome code cache", "%LOCALAPPDATA%\\Google\\Chrome\\User Data\\*\\Code Cache", Mode::Contents),
    (Category::Browser, "Chrome GPU cache", "%LOCALAPPDATA%\\Google\\Chrome\\User Data\\*\\GPUCache", Mode::Contents),
    (Category::Browser, "Edge cache", "%LOCALAPPDATA%\\Microsoft\\Edge\\User Data\\*\\Cache", Mode::Contents),
    (Category::Browser, "Edge code cache", "%LOCALAPPDATA%\\Microsoft\\Edge\\User Data\\*\\Code Cache", Mode::Contents),
    (Category::Browser, "Edge GPU cache", "%LOCALAPPDATA%\\Microsoft\\Edge\\User Data\\*\\GPUCache", Mode::Contents),
    (Category::Browser, "Firefox cache", "%LOCALAPPDATA%\\Mozilla\\Firefox\\Profiles\\*\\cache2", Mode::Contents),
    (Category::Dev, "npm cache", "%LOCALAPPDATA%\\npm-cache", Mode::Contents),
    (Category::Dev, "pnpm cache", "%LOCALAPPDATA%\\pnpm-cache", Mode::Contents),
    (Category::Dev, "Yarn cache", "%LOCALAPPDATA%\\Yarn\\Cache", Mode::Contents),
    (Category::Dev, "pip cache", "%LOCALAPPDATA%\\pip\\cache", Mode::Contents),
    (Category::Dev, "uv cache", "%LOCALAPPDATA%\\uv\\cache", Mode::Contents),
    (Category::Dev, "Cargo registry cache", "%USERPROFILE%\\.cargo\\registry\\cache", Mode::Contents),
    (Category::Dev, "Go build cache", "%LOCALAPPDATA%\\go-build", Mode::Contents),
    (Category::Dev, "NuGet HTTP cache", "%LOCALAPPDATA%\\NuGet\\v3-cache", Mode::Contents),
    (Category::Dev, "VS Code cache", "%APPDATA%\\Code\\Cache", Mode::Contents),
    (Category::Dev, "VS Code cached data", "%APPDATA%\\Code\\CachedData", Mode::Contents),
    (Category::Dev, "VS Code code cache", "%APPDATA%\\Code\\Code Cache", Mode::Contents),
    (Category::Dev, "VS Code GPU cache", "%APPDATA%\\Code\\GPUCache", Mode::Contents),
    (Category::Dev, "JetBrains caches", "%LOCALAPPDATA%\\JetBrains\\*\\caches", Mode::Contents),
    (Category::Apps, "Discord cache", "%APPDATA%\\discord\\Cache", Mode::Contents),
    (Category::Apps, "Discord code cache", "%APPDATA%\\discord\\Code Cache", Mode::Contents),
    (Category::Apps, "Discord GPU cache", "%APPDATA%\\discord\\GPUCache", Mode::Contents),
    (Category::Apps, "Slack cache", "%APPDATA%\\Slack\\Cache", Mode::Contents),
    (Category::Apps, "Slack GPU cache", "%APPDATA%\\Slack\\GPUCache", Mode::Contents),
    (Category::Apps, "Teams cache (classic)", "%APPDATA%\\Microsoft\\Teams\\Cache", Mode::Contents),
    (Category::Apps, "Spotify browser storage", "%LOCALAPPDATA%\\Spotify\\Storage", Mode::Contents),
];

/// The row of an entry of the knowledge base.
pub open spec fn row_of(t: (Category, &'static str, &'static str, Mode)) -> TargetRow {
    row(t.0, t.1@, t.2@, t.3)
}

/// The catalog.
pub open spec fn catalog() -> Seq<TargetRow> {
    TARGETS@.map_values(|t: (Category, &'static str, &'static str, Mode)| row_of(t))
}

/// The catalog.
pub fn targets() -> (r: Vec<TargetSpec>)
    ensures
        target_rows(r@) == catalog(),
{
    let table = TARGETS;
    let mut out: Vec<TargetSpec> = Vec::new();
    assert(target_rows(out@) =~= catalog().take(0));
    for i in 0..39
        invariant
            table == TARGETS,
            catalog().len() == 39,
            target_rows(out@) == catalog().take(i as int),
    {
        let t = table[i];
        let spec = TargetSpec { category: t.0, name: t.1, template: t.2, mode: t.3 };
        assert(spec@ == catalog()[i as int]);
        let ghost before = out@;
        out.push(spec);
        assert(target_rows(out@) =~= target_rows(before).push(spec@));
        assert(target_rows(out@) =~= catalog().take(i + 1));
    }
    assert(catalog().take(39) =~= catalog());
    out
}

// ---------------------------------------------------------------------------
// Environment variables
// ---------------------------------------------------------------------------

/// The template with every `%VAR%` replaced by what `env` says of it. There is no result when a
/// variable is unset or a `%` has no partner.
pub open spec fn expanded(
    t: Seq<char>,
    env: spec_fn(Seq<char>) -> Option<Seq<char>>,
) -> Option<Seq<char>>
    decreases t.len(),
{
    let n = position(t, '%');
    if n >= t.len() {
        Some(t)
    } else {
        let after = t.skip(n + 1);
        let m = position(after, '%');
        if m >= after.len() {
            None
        } else {
            proof {
                crate::text::lemma_run_len_props(t, crate::text::other_than('%'));
                crate::text::lemma_run_len_props(after, crate::text::other_than('%'));
            }
            match (env(after.take(m)), expanded(after.skip(m + 1), env)) {
                (Some(v), Some(rest)) => Some(t.take(n) + v + rest),
                _ => None,
            }
        }
    }
}

/// The lookup can be asked for every variable.
pub open spec fn answers_all<F: Fn(&str) -> Option<String>>(lookup: F) -> bool {
    forall|v: &str| #[trigger] call_requires(lookup, (v,))
}

/// The lookup gives what `env` says, whenever it is asked.
pub open spec fn answers<F: Fn(&str) -> Option<String>>(
    lookup: F,
    env: spec_fn(Seq<char>) -> Option<Seq<char>>,
) -> bool {
    forall|v: &str, r: Option<String>| #[trigger]
        call_ensures(lookup, (v,), r) ==> text_opt(r) == env(v@)
}

/// A text put in front of a result, if there is one.
pub open spec fn behind(front: Seq<char>, rest: Option<Seq<char>>) -> Option<Seq<char>> {
    match rest {
        Some(r) => Some(front + r),
        None => None,
    }
}

/// Expands `%VAR%` references through `lookup`. Returns `None` if a variable is unset.
pub fn expand_vars<F: Fn(&str) -> Option<String>>(template: &str, lookup: &F) -> (r: Option<String>)
    requires
        answers_all(*lookup),
    ensures
        forall|env: spec_fn(Seq<char>) -> Option<Seq<char>>|
            answers(*lookup, env) ==> text_opt(r) == #[trigger] expanded(template@, env),
{
    let t = chars_of(template);
    let mut out: Vec<char> = Vec::new();
    let mut i: usize = 0;
    assert(t@.skip(0) =~= t@);
    assert forall|env: spec_fn(Seq<char>) -> Option<Seq<char>>| answers(
        *lookup,
        env,
    ) implies #[trigger] expanded(t@, env) == behind(out@, expanded(t@.skip(0), env)) by {
        if let Some(e) = expanded(t@, env) {
            assert(Seq::<char>::empty() + e =~= e);
        }
    }
    loop
        invariant
            0 <= i <= t@.len(),
            t@ == template@,
            answers_all(*lookup),
            forall|env: spec_fn(Seq<char>) -> Option<Seq<char>>|
                answers(*lookup, env) ==> #[trigger] expanded(t@, env) == behind(
                    out@,
                    expanded(t@.skip(i as int), env),
                ),
        decreases t@.len() - i,
    {
        let rest = slice_subrange(t.as_slice(), i, t.len());
        assert(rest@ =~= t@.skip(i as int));
        let n = find_char(rest, '%');
        if n >= rest.len() {
            append(&mut out, rest);
            return Some(string_of(out.as_slice()));
        }
        let after = slice_subrange(rest, n + 1, rest.len());
        assert(after@ =~= rest@.skip(n + 1));
        let m = find_char(after, '%');
        if m >= after.len() {
            return None;
        }
        let name = slice_subrange(after, 0, m);
        assert(name@ =~= after@.take(m as int));
        let var = string_of(name);
        let value = match lookup(var.as_str()) {
            Some(v) => v,
            None => {
                return None;
            },
        };
        let front = slice_subrange(rest, 0, n);
        assert(front@ =~= rest@.take(n as int));
        let ghost before = out@;
        append(&mut out, front);
        append(&mut out, chars_of(value.as_str()).as_slice());
        assert(after@.skip(m + 1) =~= t@.skip(i + n + m + 2));
        assert forall|env: spec_fn(Seq<char>) -> Option<Seq<char>>| answers(
            *lookup,
            env,
        ) implies #[trigger] expanded(t@, env) == behind(
            out@,
            expanded(t@.skip(i + n + m + 2), env),
        ) by {
            assert(expanded(t@, env) == behind(before, expanded(rest@, env)));
            if let Some(e) = expanded(t@.skip(i + n + m + 2), env) {
                assert(before + (front@ + value@ + e) =~= out@ + e);
            }
        }
        i = i + n + m + 2;
    }
}

// ---------------------------------------------------------------------------
// Wildcards
// ---------------------------------------------------------------------------

/// One entry of a directory.
pub struct DirItem {
    pub name: String,
    /// A symbolic link, junction or other reparse point.
    pub link: bool,
}

/// An entry of a directory as mathematical data.
pub struct ItemRow {
    pub name: Seq<char>,
    pub link: bool,
}

impl View for DirItem {
    type V = ItemRow;

    open spec fn view(&self) -> ItemRow {
        ItemRow { name: self.name@, link: self.link }
    }
}

pub open spec fn item_rows(v: Seq<DirItem>) -> Seq<ItemRow> {
    v.map_values(|t: DirItem| t@)
}

/// A directory listing; `None` where the directory cannot be read.
pub open spec fn listing(o: Option<Vec<DirItem>>) -> Option<Seq<ItemRow>> {
    match o {
        Some(v) => Some(item_rows(v@)),
        None => None,
    }
}

/// A path as the pieces it is joined from.
pub type Pieces = Seq<Seq<char>>;

/// What directories hold.
pub type Listing = spec_fn(Seq<Seq<char>>) -> Option<Seq<ItemRow>>;

/// The listing can be asked for every directory.
pub open spec fn lists_all<L: Fn(&Vec<String>) -> Option<Vec<DirItem>>>(list: L) -> bool {
    forall|d: &Vec<String>| #[trigger] call_requires(list, (d,))
}

/// The listing gives what `fs` says, whenever it is asked.
pub open spec fn lists<L: Fn(&Vec<String>) -> Option<Vec<DirItem>>>(list: L, fs: Listing) -> bool {
    forall|d: &Vec<String>, r: Option<Vec<DirItem>>| #[trigger]
        call_ensures(list, (d,), r) ==> listing(r) == fs(texts(d@))
}

/// Whether an entry is followed: its name matches, and it is no link that the path would lead
/// through into an unrelated tree.
pub open spec fn followed(item: ItemRow, pattern: Seq<char>, more: bool) -> bool {
    crate::glob::fits_any_case(pattern, item.name) && !(more && item.link)
}

/// The paths below `dir` that the segments lead to. A segment without a star is taken as it is; one
/// with a star stands for the entries of the directory that match it.
pub open spec fn walked(dir: Pieces, segs: Pieces, fs: Listing) -> Seq<Pieces>
    decreases segs.len(), 0int, 0int,
{
    if segs.len() == 0 {
        seq![dir]
    } else if !segs[0].contains('*') {
        walked(dir.push(segs[0]), segs.drop_first(), fs)
    } else {
        match fs(dir) {
            None => seq![],
            Some(items) => walked_items(dir, items, segs[0], segs.drop_first(), fs),
        }
    }
}

/// The paths that the entries matching a segment lead to, in listing order.
pub open spec fn walked_items(
    dir: Pieces,
    items: Seq<ItemRow>,
    pattern: Seq<char>,
    rest: Pieces,
    fs: Listing,
) -> Seq<Pieces>
    decreases rest.len(), 1int, items.len(),
{
    if items.len() == 0 {
        seq![]
    } else {
        let front = walked_items(dir, items.drop_last(), pattern, rest, fs);
        let item = items.last();
        if followed(item, pattern, rest.len() > 0) {
            front + walked(dir.push(item.name), rest, fs)
        } else {
            front
        }
    }
}

/// A list of paths as mathematical data.
pub open spec fn path_rows(v: Seq<Vec<String>>) -> Seq<Pieces> {
    v.map_values(|p: Vec<String>| texts(p@))
}

/// The pieces with one more at the end.
fn extended(dir: &Vec<String>, piece: &str) -> (r: Vec<String>)
    ensures
        texts(r@) == texts(dir@).push(piece@),
{
    let mut out = copy_texts(dir);
    push_text(&mut out, piece.to_string());
    out
}

fn walk_wildcards<L: Fn(&Vec<String>) -> Option<Vec<DirItem>>>(
    dir: &Vec<String>,
    segs: &Vec<Vec<char>>,
    at: usize,
    list: &L,
    results: &mut Vec<Vec<String>>,
)
    requires
        at <= segs@.len(),
        lists_all(*list),
    ensures
        forall|fs: Listing|
            lists(*list, fs) ==> path_rows(final(results)@) == path_rows(old(results)@)
                + #[trigger] walked(texts(dir@), rows(segs@).skip(at as int), fs),
    decreases segs@.len() - at,
{
    let ghost all = rows(segs@);
    let ghost d = texts(dir@);
    let ghost before = path_rows(results@);
    if at >= segs.len() {
        let p = copy_texts(dir);
        results.push(p);
        assert(path_rows(results@) =~= before + seq![d]);
        return;
    }
    assert(all.skip(at as int)[0] == segs@[at as int]@);
    assert(all.skip(at as int).drop_first() =~= all.skip(at + 1));
    let first = &segs[at];
    if !has_char(first.as_slice(), '*') {
        let name = string_of(first.as_slice());
        let next = extended(dir, name.as_str());
        walk_wildcards(&next, segs, at + 1, list, results);
        assert forall|fs: Listing| lists(*list, fs) implies path_rows(results@) == before
            + #[trigger] walked(d, all.skip(at as int), fs) by {
            assert(walked(d, all.skip(at as int), fs) == walked(
                texts(next@),
                all.skip(at + 1),
                fs,
            ));
        }
        return;
    }
    let items = match list(dir) {
        Some(items) => items,
        None => {
            assert(before + Seq::<Pieces>::empty() =~= before);
            return;
        },
    };
    let pattern = string_of(first.as_slice());
    let ghost listed = item_rows(items@);
    assert(before + Seq::<Pieces>::empty() =~= before);
    assert(listed.take(0) =~= Seq::<ItemRow>::empty());
    let mut i: usize = 0;
    while i < items.len()
        invariant
            i <= items@.len(),
            at < segs@.len() <= usize::MAX,
            all == rows(segs@),
            d == texts(dir@),
            pattern@ == segs@[at as int]@,
            listed == item_rows(items@),
            lists_all(*list),
            forall|fs: Listing|
                lists(*list, fs) ==> path_rows(results@) == before + #[trigger] walked_items(
                    d,
                    listed.take(i as int),
                    pattern@,
                    all.skip(at + 1),
                    fs,
                ),
        decreases items@.len() - i,
    {
        let item = &items[i];
        let ghost sofar = path_rows(results@);
        assert(listed.take(i + 1).drop_last() =~= listed.take(i as int));
        assert(listed.take(i + 1).last() == item@);
        if wildcard_match(pattern.as_str(), item.name.as_str()) && !(at + 1 < segs.len()
            && item.link) {
            let next = extended(dir, item.name.as_str());
            walk_wildcards(&next, segs, at + 1, list, results);
            assert forall|fs: Listing| lists(*list, fs) implies path_rows(results@) == before
                + #[trigger] walked_items(
                d,
                listed.take(i + 1),
                pattern@,
                all.skip(at + 1),
                fs,
            ) by {
                let front = walked_items(
                    d,
                    listed.take(i as int),
                    pattern@,
                    all.skip(at + 1),
                    fs,
                );
                let more = walked(d.push(item@.name), all.skip(at + 1), fs);
                assert(before + front + more =~= before + (front + more));
            }
        } else {
            assert forall|fs: Listing| lists(*list, fs) implies path_rows(results@) == before
                + #[trigger] walked_items(
                d,
                listed.take(i + 1),
                pattern@,
                all.skip(at + 1),
                fs,
            ) by {
                let front = walked_items(
                    d,
                    listed.take(i as int),
                    pattern@,
                    all.skip(at + 1),
                    fs,
                );
            }
        }
        i = i + 1;
    }
    assert(listed.take(listed.len() as int) =~= listed);
    assert forall|fs: Listing| lists(*list, fs) implies path_rows(results@) == before
        + #[trigger] walked(d, all.skip(at as int), fs) by {
        let end = walked_items(d, listed, pattern@, all.skip(at + 1), fs);
        assert(fs(d) == Some(listed));
    }
}

/// The separator of the host.
pub open spec fn separator(windows: bool) -> char {
    if windows {
        '\\'
    } else {
        '/'
    }
}

/// The template as the host writes paths.
pub open spec fn host_form(e: Seq<char>, windows: bool) -> Seq<char> {
    if windows {
        e
    } else {
        replaced(e, '\\', seq!['/'])
    }
}

/// How many segments stand in front of the first that holds a star.
pub open spec fn plain_segments(segs: Pieces) -> int
    decreases segs.len(),
{
    if segs.len() == 0 || segs[0].contains('*') {
        0
    } else {
        1 + plain_segments(segs.drop_first())
    }
}

proof fn lemma_plain_segments(segs: Pieces, k: int)
    requires
        0 <= k <= segs.len(),
        forall|j: int| 0 <= j < k ==> !(#[trigger] segs[j]).contains('*'),
        k == segs.len() || segs[k].contains('*'),
    ensures
        plain_segments(segs) == k,
    decreases segs.len(),
{
    if k > 0 {
        assert(!segs[0].contains('*'));
        let t = segs.drop_first();
        assert forall|j: int| 0 <= j < k - 1 implies !(#[trigger] t[j]).contains('*') by {
            assert(t[j] == segs[j + 1]);
        }
        if k < segs.len() {
            assert(t[k - 1] == segs[k]);
        }
        lemma_plain_segments(t, k - 1);
    }
}

/// The paths of an expanded template, each as the pieces it is joined from.
pub open spec fn paths_of(h: Seq<char>, windows: bool, fs: Listing) -> Seq<Pieces> {
    if !h.contains('*') {
        seq![seq![h]]
    } else {
        let segs = split_on(h, separator(windows));
        let k = plain_segments(segs);
        walked(
            seq![crate::text::joined(segs.take(k), seq![separator(windows)])],
            segs.skip(k),
            fs,
        )
    }
}

/// The paths of a template: variables first, wildcards against the directories.
pub open spec fn template_paths(
    t: Seq<char>,
    windows: bool,
    env: spec_fn(Seq<char>) -> Option<Seq<char>>,
    fs: Listing,
) -> Seq<Pieces> {
    match expanded(t, env) {
        None => seq![],
        Some(e) => paths_of(host_form(e, windows), windows, fs),
    }
}

fn expand_wildcards<L: Fn(&Vec<String>) -> Option<Vec<DirItem>>>(
    host: &[char],
    windows: bool,
    list: &L,
) -> (r: Vec<Vec<String>>)
    requires
        lists_all(*list),
    ensures
        forall|fs: Listing|
            lists(*list, fs) ==> path_rows(r@) == #[trigger] paths_of(host@, windows, fs),
{
    let mut results: Vec<Vec<String>> = Vec::new();
    if !has_char(host, '*') {
        let mut p = no_texts();
        push_text(&mut p, string_of(host));
        assert(texts(p@) =~= seq![host@]);
        results.push(p);
        assert(path_rows(results@) =~= seq![seq![host@]]);
        return results;
    }
    let sep = if windows {
        '\\'
    } else {
        '/'
    };
    let segs = split_char(host, sep);
    let ghost all = rows(segs@);
    let mut front = no_texts();
    let mut k: usize = 0;
    assert(texts(front@) =~= all.take(0));
    while k < segs.len() && !has_char(segs[k].as_slice(), '*')
        invariant
            0 <= k <= segs@.len(),
            all == rows(segs@),
            texts(front@) == all.take(k as int),
            forall|j: int| 0 <= j < k ==> !(#[trigger] all[j]).contains('*'),
        decreases segs@.len() - k,
    {
        assert(all[k as int] == segs@[k as int]@);
        let piece = string_of(segs[k].as_slice());
        push_text(&mut front, piece);
        assert(texts(front@) =~= all.take(k + 1));
        k = k + 1;
    }
    proof {
        if k < segs@.len() {
            assert(all[k as int] == segs@[k as int]@);
        }
        lemma_plain_segments(all, k as int);
    }
    let mut sep_text = String::new();
    sep_text.push(sep);
    assert(sep_text@ =~= seq![separator(windows)]);
    let mut base = no_texts();
    push_text(&mut base, crate::text::join(&front, sep_text.as_str()));
    assert(texts(base@) =~= seq![crate::text::joined(all.take(k as int), seq![separator(windows)])]);
    walk_wildcards(&base, &segs, k, list, &mut results);
    assert forall|fs: Listing| lists(*list, fs) implies path_rows(results@) == #[trigger] paths_of(
        host@,
        windows,
        fs,
    ) by {
        let w = walked(texts(base@), all.skip(k as int), fs);
        assert(path_rows(Seq::<Vec<String>>::empty()) + w =~= w);
    }
    results
}

/// Expands a template into concrete paths: environment variables first, then `*` wildcards against
/// the directories that `list` reads. Each path comes as the pieces it is joined from. A template
/// without a wildcard passes through unchecked: that the path exists is for the caller to see.
pub fn expand_template<
    F: Fn(&str) -> Option<String>,
    L: Fn(&Vec<String>) -> Option<Vec<DirItem>>,
>(template: &str, windows: bool, lookup: &F, list: &L) -> (r: Vec<Vec<String>>)
    requires
        answers_all(*lookup),
        lists_all(*list),
    ensures
        forall|env: spec_fn(Seq<char>) -> Option<Seq<char>>, fs: Listing|
            answers(*lookup, env) && lists(*list, fs) ==> path_rows(r@)
                == #[trigger] template_paths(template@, windows, env, fs),
{
    let e = match expand_vars(template, lookup) {
        Some(e) => e,
        None => {
            let none: Vec<Vec<String>> = Vec::new();
            assert(path_rows(none@) =~= Seq::<Pieces>::empty());
            assert forall|env: spec_fn(Seq<char>) -> Option<Seq<char>>, fs: Listing| answers(
                *lookup,
                env,
            ) && lists(*list, fs) implies path_rows(none@) == #[trigger] template_paths(
                template@,
                windows,
                env,
                fs,
            ) by {
                assert(expanded(template@, env) is None);
            }
            return none;
        },
    };
    let cs = chars_of(e.as_str());
    let host = if windows {
        cs
    } else {
        let slash: Vec<char> = vec!['/'];
        assert(slash@ =~= seq!['/']);
        replace(cs.as_slice(), '\\', slash.as_slice())
    };
    assert(host@ == host_form(e@, windows));
    let r = expand_wildcards(host.as_slice(), windows, list);
    assert forall|env: spec_fn(Seq<char>) -> Option<Seq<char>>, fs: Listing| answers(*lookup, env)
        && lists(*list, fs) implies path_rows(r@) == #[trigger] template_paths(
        template@,
        windows,
        env,
        fs,
    ) by {
        assert(expanded(template@, env) == Some(e@));
        assert(path_rows(r@) == paths_of(host@, windows, fs));
    }
    r
}

// ---------------------------------------------------------------------------
// Resolved targets
// ---------------------------------------------------------------------------

/// A template resolved to a concrete, existing path.
#[derive(Debug)]
pub struct ResolvedTarget {
    pub category: Category,
    pub name: &'static str,
    pub path: String,
    pub mode: Mode,
}

/// A resolved target as mathematical data.
pub struct ResolvedRow {
    pub category: Category,
    pub name: Seq<char>,
    pub path: Seq<char>,
    pub mode: Mode,
}

impl View for ResolvedTarget {
    type V = ResolvedRow;

    open spec fn view(&self) -> ResolvedRow {
        ResolvedRow {
            category: self.category,
            name: self.name@,
            path: self.path@,
            mode: self.mode,
        }
    }
}

impl Clone for ResolvedTarget {
    fn clone(&self) -> (r: ResolvedTarget)
        ensures
            r@ == self@,
    {
        ResolvedTarget {
            category: self.category,
            name: self.name,
            path: self.path.clone(),
            mode: self.mode,
        }
    }
}

pub open spec fn resolved_rows(v: Seq<ResolvedTarget>) -> Seq<ResolvedRow> {
    v.map_values(|t: ResolvedTarget| t@)
}

/// The text of the paths that exist, by the pieces they are joined from.
pub type Existing = spec_fn(Seq<Seq<char>>) -> Option<Seq<char>>;

/// The probe can be asked for every path.
pub open spec fn probes_all<P: Fn(&Vec<String>) -> Option<String>>(probe: P) -> bool {
    forall|d: &Vec<String>| #[trigger] call_requires(probe, (d,))
}

/// The probe gives what `there` says, whenever it is asked.
pub open spec fn probes<P: Fn(&Vec<String>) -> Option<String>>(probe: P, there: Existing) -> bool {
    forall|d: &Vec<String>, r: Option<String>| #[trigger]
        call_ensures(probe, (d,), r) ==> text_opt(r) == there(texts(d@))
}

/// What tells two paths apart: separators and case do not.
pub open spec fn path_key(path: Seq<char>) -> Seq<char> {
    folded(replaced(path, '/', seq!['\\']))
}

/// A target with that path key stands in the list.
pub open spec fn has_key(list: Seq<ResolvedRow>, key: Seq<char>) -> bool {
    exists|i: int| 0 <= i < list.len() && path_key((#[trigger] list[i]).path) == key
}

/// The list with the paths of one catalog row added: those that exist and were not seen before.
pub open spec fn with_paths(
    list: Seq<ResolvedRow>,
    row: TargetRow,
    paths: Seq<Pieces>,
    there: Existing,
) -> Seq<ResolvedRow>
    decreases paths.len(),
{
    if paths.len() == 0 {
        list
    } else {
        let front = with_paths(list, row, paths.drop_last(), there);
        match there(paths.last()) {
            Some(text) => if has_key(front, path_key(text)) {
                front
            } else {
                front.push(
                    ResolvedRow {
                        category: row.category,
                        name: row.name,
                        path: text,
                        mode: row.mode,
                    },
                )
            },
            None => front,
        }
    }
}

/// The category is asked for: no list asks for all.
pub open spec fn wanted(only: Option<Seq<Category>>, c: Category) -> bool {
    match only {
        Some(list) => list.contains(c),
        None => true,
    }
}

/// What the world answers: variables, directories, and which paths exist.
pub struct World {
    pub env: spec_fn(Seq<char>) -> Option<Seq<char>>,
    pub fs: Listing,
    pub there: Existing,
}

/// The targets that the rows resolve to, in catalog order, each path once.
pub open spec fn resolved(
    rows: Seq<TargetRow>,
    only: Option<Seq<Category>>,
    windows: bool,
    w: World,
) -> Seq<ResolvedRow>
    decreases rows.len(),
{
    if rows.len() == 0 {
        seq![]
    } else {
        let front = resolved(rows.drop_last(), only, windows, w);
        let row = rows.last();
        if wanted(only, row.category) {
            with_paths(front, row, template_paths(row.template, windows, w.env, w.fs), w.there)
        } else {
            front
        }
    }
}

pub open spec fn only_view(only: Option<&[Category]>) -> Option<Seq<Category>> {
    match only {
        Some(s) => Some(s@),
        None => None,
    }
}

fn is_wanted(only: Option<&[Category]>, c: Category) -> (r: bool)
    ensures
        r == wanted(only_view(only), c),
{
    match only {
        None => true,
        Some(list) => {
            for i in 0..list.len()
                invariant
                    only_view(only) == Some(list@),
                    forall|j: int| 0 <= j < i ==> list@[j] != c,
            {
                if list[i] == c {
                    assert(list@.contains(list@[i as int]));
                    return true;
                }
            }
            false
        },
    }
}

fn key_of(path: &str) -> (r: Vec<char>)
    ensures
        r@ == path_key(path@),
{
    let back: Vec<char> = vec!['\\'];
    assert(back@ =~= seq!['\\']);
    let flat = replace(chars_of(path).as_slice(), '/', back.as_slice());
    crate::text::lower_chars(flat.as_slice())
}

fn key_seen(list: &Vec<ResolvedTarget>, key: &[char]) -> (r: bool)
    ensures
        r == has_key(resolved_rows(list@), key@),
{
    for i in 0..list.len()
        invariant
            forall|j: int| 0 <= j < i ==> path_key((#[trigger] list@[j]).path@) != key@,
    {
        if same(key_of(list[i].path.as_str()).as_slice(), key) {
            assert(resolved_rows(list@)[i as int] == list@[i as int]@);
            return true;
        }
    }
    assert forall|j: int| 0 <= j < list@.len() implies path_key(
        (#[trigger] resolved_rows(list@)[j]).path,
    ) != key@ by {
        assert(resolved_rows(list@)[j] == list@[j]@);
    }
    false
}

/// Adds the paths of one row that exist and are new.
fn add_paths<P: Fn(&Vec<String>) -> Option<String>>(
    out: &mut Vec<ResolvedTarget>,
    spec: &TargetSpec,
    paths: &Vec<Vec<String>>,
    probe: &P,
)
    requires
        probes_all(*probe),
    ensures
        forall|there: Existing|
            probes(*probe, there) ==> resolved_rows(final(out)@) == #[trigger] with_paths(
                resolved_rows(old(out)@),
                spec@,
                path_rows(paths@),
                there,
            ),
{
    let ghost before = resolved_rows(out@);
    let ghost all = path_rows(paths@);
    let mut i: usize = 0;
    assert(all.take(0) =~= Seq::<Pieces>::empty());
    while i < paths.len()
        invariant
            i <= paths@.len(),
            all == path_rows(paths@),
            probes_all(*probe),
            forall|there: Existing|
                probes(*probe, there) ==> resolved_rows(out@) == #[trigger] with_paths(
                    before,
                    spec@,
                    all.take(i as int),
                    there,
                ),
        decreases paths@.len() - i,
    {
        assert(all.take(i + 1).drop_last() =~= all.take(i as int));
        assert(all.take(i + 1).last() == texts(paths@[i as int]@));
        let ghost front = resolved_rows(out@);
        let got = probe(&paths[i]);
        let ghost text = text_opt(got);
        if let Some(path) = got {
            let key = key_of(path.as_str());
            if !key_seen(out, key.as_slice()) {
                let t = ResolvedTarget {
                    category: spec.category,
                    name: spec.name,
                    path,
                    mode: spec.mode,
                };
                out.push(t);
                assert(resolved_rows(out@) =~= front.push(t@));
            }
        }
        assert forall|there: Existing| probes(*probe, there) implies resolved_rows(out@)
            == #[trigger] with_paths(before, spec@, all.take(i + 1), there) by {
            assert(front == with_paths(before, spec@, all.take(i as int), there));
            assert(there(all.take(i + 1).last()) == text);
        }
        i = i + 1;
    }
    assert(all.take(all.len() as int) =~= all);
}

/// Resolves the catalog: the targets of the wanted categories whose paths exist, each path once.
/// `lookup` answers for environment variables, `list` for directories, and `probe` gives the text
/// of a path that exists.
pub fn resolve_targets<
    F: Fn(&str) -> Option<String>,
    L: Fn(&Vec<String>) -> Option<Vec<DirItem>>,
    P: Fn(&Vec<String>) -> Option<String>,
>(only: Option<&[Category]>, windows: bool, lookup: &F, list: &L, probe: &P) -> (r: Vec<
    ResolvedTarget,
>)
    requires
        answers_all(*lookup),
        lists_all(*list),
        probes_all(*probe),
    ensures
        forall|w: World|
            answers(*lookup, w.env) && lists(*list, w.fs) && probes(*probe, w.there)
                ==> resolved_rows(r@) == #[trigger] resolved(
                catalog(),
                only_view(only),
                windows,
                w,
            ),
{
    let specs = targets();
    let ghost all = target_rows(specs@);
    let mut out: Vec<ResolvedTarget> = Vec::new();
    let mut i: usize = 0;
    assert(all.take(0) =~= Seq::<TargetRow>::empty());
    assert(resolved_rows(out@) =~= Seq::<ResolvedRow>::empty());
    while i < specs.len()
        invariant
            i <= specs@.len(),
            all == target_rows(specs@),
            answers_all(*lookup),
            lists_all(*list),
            probes_all(*probe),
            forall|w: World|
                answers(*lookup, w.env) && lists(*list, w.fs) && probes(*probe, w.there)
                    ==> resolved_rows(out@) == #[trigger] resolved(
                    all.take(i as int),
                    only_view(only),
                    windows,
                    w,
                ),
        decreases specs@.len() - i,
    {
        let spec = specs[i];
        let ghost front = resolved_rows(out@);
        assert(all.take(i + 1).drop_last() =~= all.take(i as int));
        assert(all.take(i + 1).last() == spec@);
        if is_wanted(only, spec.category) {
            let paths = expand_template(spec.template, windows, lookup, list);
            add_paths(&mut out, &spec, &paths, probe);
            assert forall|w: World| answers(*lookup, w.env) && lists(*list, w.fs) && probes(
                *probe,
                w.there,
            ) implies resolved_rows(out@) == #[trigger] resolved(
                all.take(i + 1),
                only_view(only),
                windows,
                w,
            ) by {
                assert(front == resolved(all.take(i as int), only_view(only), windows, w));
                assert(path_rows(paths@) == template_paths(
                    spec.template@,
                    windows,
                    w.env,
                    w.fs,
                ));
                assert(resolved_rows(out@) == with_paths(
                    front,
                    spec@,
                    path_rows(paths@),
                    w.there,
                ));
            }
        } else {
            assert forall|w: World| answers(*lookup, w.env) && lists(*list, w.fs) && probes(
                *probe,
                w.there,
            ) implies resolved_rows(out@) == #[trigger] resolved(
                all.take(i + 1),
                only_view(only),
                windows,
                w,
            ) by {
                assert(front == resolved(all.take(i as int), only_view(only), windows, w));
            }
        }
        i = i + 1;
    }
    assert(all.take(all.len() as int) =~= all);
    out
}

// ---------------------------------------------------------------------------
// Cleaning policy
// ---------------------------------------------------------------------------

/// How careful cleaning a target has to be.
#[derive(Clone, Copy, PartialEq, Eq, Debug, Structural)]
pub enum Risk {
    Low,
    Medium,
}

/// What the cleaning policy needs to know of a target.
#[derive(Clone, Copy, Debug)]
pub struct TargetMetadata {
    pub risk: Risk,
    pub redownload_cost: &'static str,
    /// The program that holds the cache open while it runs.
    pub associated_app: Option<&'static str>,
    pub requires_admin: bool,
    pub expensive: bool,
}

/// Metadata as mathematical data.
pub struct MetadataRow {
    pub risk: Risk,
    pub redownload_cost: Seq<char>,
    pub associated_app: Option<Seq<char>>,
    pub requires_admin: bool,
    pub expensive: bool,
}

impl View for TargetMetadata {
    type V = MetadataRow;

    open spec fn view(&self) -> MetadataRow {
        MetadataRow {
            risk: self.risk,
            redownload_cost: self.redownload_cost@,
            associated_app: match self.associated_app {
                Some(s) => Some(s@),
                None => None,
            },
            requires_admin: self.requires_admin,
            expensive: self.expensive,
        }
    }
}

/// Windows keeps the place to itself: the system caches, and the temporary files of Windows.
pub open spec fn system_owned(category: Category, name: Seq<char>) -> bool {
    category == Category::System || name == "Windows temp"@
}

/// A store of packages that is slow to download again.
pub open spec fn costly(path: Seq<char>) -> bool {
    let p = ascii_lower(replaced(path, '/', seq!['\\']));
    ||| has_suffix(p, "\\.m2\\repository"@)
    ||| has_suffix(p, "\\.gradle\\caches"@)
    ||| has_suffix(p, "\\.nuget\\packages"@)
    ||| has_suffix(p, "\\pnpm\\store"@)
}

/// The program that a cache belongs to, by the target's name.
pub open spec fn owner(name: Seq<char>) -> Option<Seq<char>> {
    if has_prefix(name, "Chrome "@) {
        Some("chrome.exe"@)
    } else if has_prefix(name, "Edge "@) {
        Some("msedge.exe"@)
    } else if has_prefix(name, "Firefox "@) {
        Some("firefox.exe"@)
    } else if has_prefix(name, "VS Code "@) {
        Some("Code.exe"@)
    } else if has_prefix(name, "Discord "@) {
        Some("Discord.exe"@)
    } else if has_prefix(name, "Slack "@) {
        Some("slack.exe"@)
    } else if has_prefix(name, "Teams "@) {
        Some("Teams.exe"@)
    } else if has_prefix(name, "Spotify "@) {
        Some("Spotify.exe"@)
    } else {
        None
    }
}

/// The metadata of a target.
pub open spec fn metadata_of(t: ResolvedRow) -> MetadataRow {
    let admin = system_owned(t.category, t.name);
    let expensive = costly(t.path);
    MetadataRow {
        risk: if admin || expensive {
            Risk::Medium
        } else {
            Risk::Low
        },
        redownload_cost: if expensive {
            "high"@
        } else {
            "low"@
        },
        associated_app: owner(t.name),
        requires_admin: admin,
        expensive,
    }
}

fn is_costly(path: &str) -> (r: bool)
    ensures
        r == costly(path@),
{
    let back: Vec<char> = vec!['\\'];
    assert(back@ =~= seq!['\\']);
    let flat = replace(chars_of(path).as_slice(), '/', back.as_slice());
    let p = lower_ascii(flat.as_slice());
    ends_with(p.as_slice(), "\\.m2\\repository") || ends_with(p.as_slice(), "\\.gradle\\caches")
        || ends_with(p.as_slice(), "\\.nuget\\packages") || ends_with(
        p.as_slice(),
        "\\pnpm\\store",
    )
}

fn owner_of(name: &str) -> (r: Option<&'static str>)
    ensures
        match r {
            Some(s) => owner(name@) == Some(s@),
            None => owner(name@) is None,
        },
{
    let n = chars_of(name);
    if starts_with(n.as_slice(), "Chrome ") {
        Some("chrome.exe")
    } else if starts_with(n.as_slice(), "Edge ") {
        Some("msedge.exe")
    } else if starts_with(n.as_slice(), "Firefox ") {
        Some("firefox.exe")
    } else if starts_with(n.as_slice(), "VS Code ") {
        Some("Code.exe")
    } else if starts_with(n.as_slice(), "Discord ") {
        Some("Discord.exe")
    } else if starts_with(n.as_slice(), "Slack ") {
        Some("slack.exe")
    } else if starts_with(n.as_slice(), "Teams ") {
        Some("Teams.exe")
    } else if starts_with(n.as_slice(), "Spotify ") {
        Some("Spotify.exe")
    } else {
        None
    }
}

impl ResolvedTarget {
    /// The metadata of the target.
    pub fn metadata(&self) -> (r: TargetMetadata)
        ensures
            r@ == metadata_of(self@),
    {
        let admin = matches!(self.category, Category::System) || str_eq(self.name, "Windows temp");
        let expensive = is_costly(self.path.as_str());
        TargetMetadata {
            risk: if admin || expensive {
                Risk::Medium
            } else {
                Risk::Low
            },
            redownload_cost: if expensive {
                "high"
            } else {
                "low"
            },
            associated_app: owner_of(self.name),
            requires_admin: admin,
            expensive,
        }
    }
}

// ---------------------------------------------------------------------------
// Laws
// ---------------------------------------------------------------------------

/// A stretch of a template that is plain text: no star, no variable, and no separator.
pub open spec fn is_plain(seg: Seq<char>) -> bool {
    !seg.contains('*') && !seg.contains('%') && !seg.contains('\\') && !seg.contains('/')
}

/// The segments as a template writes them behind a directory.
pub open spec fn written(segs: Pieces) -> Seq<char>
    decreases segs.len(),
{
    if segs.len() == 0 {
        seq![]
    } else {
        written(segs.drop_last()) + seq!['\\'] + segs.last()
    }
}

/// A text of a template as the platform writes it: Windows keeps it, elsewhere `/` stands for `\`.
pub open spec fn on_platform(s: Seq<char>, windows: bool) -> Seq<char> {
    s.map_values(
        |c: char|
            if c == '\\' && !windows {
                '/'
            } else {
                c
            },
    )
}

/// The name begins with `front` and ends with `back`, case aside.
pub open spec fn begins_and_ends(name: Seq<char>, front: Seq<char>, back: Seq<char>) -> bool {
    let n = folded(name);
    &&& n.len() >= front.len() + back.len()
    &&& n.take(front.len() as int) == ascii_lower(front)
    &&& n.skip(n.len() - back.len()) == ascii_lower(back)
}

/// The entries of a directory that a segment with one star stands for. Where the path goes on, links
/// are left out.
pub open spec fn starred(
    items: Seq<ItemRow>,
    front: Seq<char>,
    back: Seq<char>,
    more: bool,
) -> Seq<ItemRow> {
    items.filter(
        |item: ItemRow| begins_and_ends(item.name, front, back) && (more ==> !item.link),
    )
}

proof fn lemma_has(s: Seq<char>, i: int)
    requires
        0 <= i < s.len(),
    ensures
        s.contains(s[i]),
{
}

proof fn lemma_sum_has(a: Seq<char>, b: Seq<char>, c: char)
    ensures
        (a + b).contains(c) == (a.contains(c) || b.contains(c)),
{
    let s = a + b;
    if s.contains(c) {
        let i = choose|i: int| 0 <= i < s.len() && s[i] == c;
        if i < a.len() {
            lemma_has(a, i);
        } else {
            assert(s[i] == b[i - a.len()]);
            lemma_has(b, i - a.len());
        }
    }
    if a.contains(c) {
        let i = choose|i: int| 0 <= i < a.len() && a[i] == c;
        assert(s[i] == c);
    }
    if b.contains(c) {
        let i = choose|i: int| 0 <= i < b.len() && b[i] == c;
        assert(s[a.len() + i] == c);
    }
}

proof fn lemma_written(segs: Pieces)
    requires
        forall|i: int| 0 <= i < segs.len() ==> is_plain(#[trigger] segs[i]),
    ensures
        !written(segs).contains('*'),
        !written(segs).contains('%'),
    decreases segs.len(),
{
    if segs.len() > 0 {
        let front = segs.drop_last();
        assert forall|i: int| 0 <= i < front.len() implies is_plain(#[trigger] front[i]) by {
            assert(front[i] == segs[i]);
        }
        lemma_written(front);
        assert(is_plain(segs[segs.len() - 1]));
        let s = written(front) + seq!['\\'];
        lemma_sum_has(written(front), seq!['\\'], '*');
        lemma_sum_has(written(front), seq!['\\'], '%');
        lemma_sum_has(s, segs.last(), '*');
        lemma_sum_has(s, segs.last(), '%');
    }
}

proof fn lemma_first_variable(
    var: Seq<char>,
    rest: Seq<char>,
    env: spec_fn(Seq<char>) -> Option<Seq<char>>,
)
    requires
        !var.contains('%'),
        !rest.contains('%'),
    ensures
        expanded(seq!['%'] + var + seq!['%'] + rest, env) == behind_value(env(var), rest),
{
    variables_become_their_values(var, rest, env);
    plain_fronts_stay(rest, env);
}

/// The value with a text behind it; nothing where there is no value.
pub open spec fn behind_value(value: Option<Seq<char>>, rest: Seq<char>) -> Option<Seq<char>> {
    match value {
        Some(v) => Some(v + rest),
        None => None,
    }
}

/// A variable becomes its value, and what stands behind it is expanded by itself.
pub proof fn variables_become_their_values(
    var: Seq<char>,
    rest: Seq<char>,
    env: spec_fn(Seq<char>) -> Option<Seq<char>>,
)
    requires
        !var.contains('%'),
    ensures
        expanded(seq!['%'] + var + seq!['%'] + rest, env) == match (env(var), expanded(rest, env)) {
            (Some(v), Some(e)) => Some(v + e),
            _ => None,
        },
{
    let t = seq!['%'] + var + seq!['%'] + rest;
    crate::text::lemma_run_len(t, crate::text::other_than('%'), 0);
    let after = t.skip(1);
    assert forall|j: int| 0 <= j < var.len() implies crate::text::other_than('%')(#[trigger] after[j]) by {
        assert(after[j] == var[j]);
        lemma_has(var, j);
    }
    crate::text::lemma_run_len(after, crate::text::other_than('%'), var.len() as int);
    assert(after.take(var.len() as int) =~= var);
    assert(after.skip(var.len() as int + 1) =~= rest);
    if let (Some(v), Some(e)) = (env(var), expanded(rest, env)) {
        assert(t.take(0) + v + e =~= v + e);
    }
}

/// A text without a variable stays as it is, and text in front of a variable stays in front.
pub proof fn plain_fronts_stay(t: Seq<char>, env: spec_fn(Seq<char>) -> Option<Seq<char>>)
    ensures
        !t.contains('%') ==> expanded(t, env) == Some(t),
        t.len() > 0 && t[0] != '%' ==> (expanded(t, env) matches Some(e) ==> e.len() > 0 && e[0]
            == t[0]),
{
    crate::text::lemma_run_len_props(t, crate::text::other_than('%'));
    let n = position(t, '%');
    if n < t.len() {
        assert(!crate::text::other_than('%')(t[n]));
        lemma_has(t, n);
        if t[0] != '%' {
            assert(n > 0);
        }
    }
}

/// Plain segments behind a directory are taken as they are.
proof fn lemma_plain_walk(dir: Pieces, segs: Pieces, fs: Listing)
    requires
        forall|i: int| 0 <= i < segs.len() ==> is_plain(#[trigger] segs[i]),
    ensures
        walked(dir, segs, fs) == seq![dir + segs],
    decreases segs.len(),
{
    if segs.len() > 0 {
        assert(is_plain(segs[0]));
        let rest = segs.drop_first();
        assert forall|i: int| 0 <= i < rest.len() implies is_plain(#[trigger] rest[i]) by {
            assert(rest[i] == segs[i + 1]);
        }
        lemma_plain_walk(dir.push(segs[0]), rest, fs);
        assert(dir.push(segs[0]) + rest =~= dir + segs);
    } else {
        assert(dir + segs =~= dir);
    }
}

/// A pattern with one star fits what begins and ends as it does, case aside.
pub proof fn one_star_in_any_case(front: Seq<char>, back: Seq<char>, text: Seq<char>)
    requires
        crate::text::all_ascii(front),
        crate::text::all_ascii(back),
        !front.contains('*'),
        !back.contains('*'),
    ensures
        crate::glob::fits_any_case(front + seq!['*'] + back, text) == begins_and_ends(
            text,
            front,
            back,
        ),
{
    let pattern = front + seq!['*'] + back;
    let low = ascii_lower(front);
    let end = ascii_lower(back);
    assert(folded(pattern) =~= low + seq!['*'] + end);
    assert(!low.contains('*')) by {
        if low.contains('*') {
            let i = choose|i: int| 0 <= i < low.len() && low[i] == '*';
            lemma_has(front, i);
            assert(crate::text::ascii_lower_char(front[i]) == '*');
        }
    }
    assert(!end.contains('*')) by {
        if end.contains('*') {
            let i = choose|i: int| 0 <= i < end.len() && end[i] == '*';
            lemma_has(back, i);
            assert(crate::text::ascii_lower_char(back[i]) == '*');
        }
    }
    crate::glob::one_star_matches_what_begins_and_ends(low, end, folded(text));
}

/// A segment with one star stands for the entries that begin and end as it does.
proof fn lemma_starred_walk(
    dir: Pieces,
    items: Seq<ItemRow>,
    front: Seq<char>,
    back: Seq<char>,
    rest: Pieces,
    fs: Listing,
)
    requires
        is_plain(front),
        is_plain(back),
        crate::text::all_ascii(front),
        crate::text::all_ascii(back),
        forall|i: int| 0 <= i < rest.len() ==> is_plain(#[trigger] rest[i]),
    ensures
        walked_items(dir, items, front + seq!['*'] + back, rest, fs) == starred(
            items,
            front,
            back,
            rest.len() > 0,
        ).map_values(|item: ItemRow| dir.push(item.name) + rest),
    decreases items.len(),
{
    let pattern = front + seq!['*'] + back;
    let made = |item: ItemRow| dir.push(item.name) + rest;
    reveal(Seq::filter);
    if items.len() > 0 {
        lemma_starred_walk(dir, items.drop_last(), front, back, rest, fs);
        let item = items.last();
        one_star_in_any_case(front, back, item.name);
        lemma_plain_walk(dir.push(item.name), rest, fs);
        let before = starred(items.drop_last(), front, back, rest.len() > 0);
        assert(before.push(item).map_values(made) =~= before.map_values(made) + seq![made(item)]);
    } else {
        assert(starred(items, front, back, rest.len() > 0).map_values(made)
            =~= Seq::<Pieces>::empty());
    }
}

/// The text of a directory with segments behind it splits into the pieces of the directory and the
/// segments.
proof fn lemma_split_written(dir: Seq<char>, segs: Pieces, windows: bool)
    requires
        forall|i: int|
            0 <= i < segs.len() ==> !(#[trigger] segs[i]).contains('\\') && !segs[i].contains('/'),
    ensures
        split_on(on_platform(dir + written(segs), windows), separator(windows)) == split_on(
            on_platform(dir, windows),
            separator(windows),
        ) + segs,
    decreases segs.len(),
{
    let c = separator(windows);
    let whole = on_platform(dir + written(segs), windows);
    if segs.len() > 0 {
        let front = segs.drop_last();
        assert forall|i: int| 0 <= i < front.len() implies !(#[trigger] front[i]).contains('\\')
            && !front[i].contains('/') by {
            assert(front[i] == segs[i]);
        }
        lemma_split_written(dir, front, windows);
        let last = segs.last();
        assert(!segs[segs.len() - 1].contains('\\'));
        let sofar = on_platform(dir + written(front), windows);
        assert(on_platform(last, windows) =~= last) by {
            assert forall|i: int| 0 <= i < last.len() implies last[i] != '\\' by {
                lemma_has(last, i);
            }
        }
        assert(dir + written(segs) =~= (dir + written(front)) + seq!['\\'] + last);
        assert(whole =~= sofar + seq![c] + on_platform(last, windows));
        crate::text::separators_part(sofar, last, c, crate::text::equal_to(c));
        assert forall|i: int| 0 <= i < last.len() implies !crate::text::equal_to(c)(
            #[trigger] last[i],
        ) by {
            lemma_has(last, i);
        }
        crate::text::what_has_no_separator_is_one_piece(last, crate::text::equal_to(c));
        assert(split_on(on_platform(dir, windows), c) + front + seq![last] =~= split_on(
            on_platform(dir, windows),
            c,
        ) + segs);
    } else {
        assert(dir + written(segs) =~= dir);
        assert(split_on(on_platform(dir, windows), c) + segs =~= split_on(
            on_platform(dir, windows),
            c,
        ));
    }
}

proof fn lemma_host_form(e: Seq<char>, windows: bool)
    ensures
        host_form(e, windows) == on_platform(e, windows),
{
    if windows {
        assert(on_platform(e, windows) =~= e);
    } else {
        crate::text::replacing_keeps_places(e, '\\', '/');
        assert(on_platform(e, windows) =~= host_form(e, windows));
    }
}

proof fn lemma_keeps_out(s: Seq<char>, windows: bool, c: char)
    requires
        c != '\\',
        c != '/',
    ensures
        on_platform(s, windows).contains(c) == s.contains(c),
{
    let t = on_platform(s, windows);
    if t.contains(c) {
        let i = choose|i: int| 0 <= i < t.len() && t[i] == c;
        assert(s[i] == c);
    }
    if s.contains(c) {
        let i = choose|i: int| 0 <= i < s.len() && s[i] == c;
        assert(t[i] == c);
    }
}

/// A template leads to what a directory holds, on Windows as elsewhere. Written as a variable, the way
/// from there to a directory, a segment with one star, and the segments behind it, it expands to one
/// path for every entry of the directory whose name begins and ends as the segment does, case aside:
/// the directory, the name, and the segments behind it. Where segments follow, links are left out. An
/// unset variable, or a directory that cannot be read, gives no path.
pub proof fn a_star_stands_for_the_entries_of_its_directory(
    var: Seq<char>,
    way: Seq<char>,
    front: Seq<char>,
    back: Seq<char>,
    tail: Pieces,
    windows: bool,
    env: spec_fn(Seq<char>) -> Option<Seq<char>>,
    fs: Listing,
)
    requires
        !var.contains('%'),
        !way.contains('%'),
        !way.contains('*'),
        env(var) matches Some(v) ==> !v.contains('*'),
        is_plain(front),
        is_plain(back),
        crate::text::all_ascii(front),
        crate::text::all_ascii(back),
        forall|i: int| 0 <= i < tail.len() ==> is_plain(#[trigger] tail[i]),
    ensures
        ({
            let paths = template_paths(
                seq!['%'] + var + seq!['%'] + way + seq!['\\'] + front + seq!['*'] + back + written(
                    tail,
                ),
                windows,
                env,
                fs,
            );
            match env(var) {
                None => paths.len() == 0,
                Some(v) => {
                    let dir = on_platform(v + way, windows);
                    match fs(seq![dir]) {
                        None => paths.len() == 0,
                        Some(items) => paths == starred(
                            items,
                            front,
                            back,
                            tail.len() > 0,
                        ).map_values(|item: ItemRow| seq![dir, item.name] + tail),
                    }
                },
            }
        }),
{
    let pattern = front + seq!['*'] + back;
    let rest = way + seq!['\\'] + pattern + written(tail);
    let t = seq!['%'] + var + seq!['%'] + way + seq!['\\'] + front + seq!['*'] + back + written(tail);
    assert(t =~= seq!['%'] + var + seq!['%'] + rest);
    lemma_written(tail);
    lemma_sum_has(front, seq!['*'], '%');
    lemma_sum_has(front + seq!['*'], back, '%');
    lemma_sum_has(way, seq!['\\'], '%');
    lemma_sum_has(way + seq!['\\'], pattern, '%');
    lemma_sum_has(way + seq!['\\'] + pattern, written(tail), '%');
    lemma_first_variable(var, rest, env);
    if let Some(v) = env(var) {
        let e = v + rest;
        let base = v + way;
        let c = separator(windows);
        let segs = seq![pattern] + tail;
        lemma_host_form(e, windows);
        let h = on_platform(e, windows);
        lemma_sum_has(front, seq!['*'], '\\');
        lemma_sum_has(front, seq!['*'], '/');
        lemma_sum_has(front + seq!['*'], back, '\\');
        lemma_sum_has(front + seq!['*'], back, '/');
        assert(written(segs) =~= seq!['\\'] + pattern + written(tail)) by {
            lemma_written_front(pattern, tail);
        }
        assert(e =~= base + written(segs));
        assert forall|i: int| 0 <= i < segs.len() implies !(#[trigger] segs[i]).contains('\\')
            && !segs[i].contains('/') by {
            if i > 0 {
                assert(segs[i] == tail[i - 1]);
                assert(is_plain(tail[i - 1]));
            }
        }
        lemma_split_written(base, segs, windows);
        let dir = on_platform(base, windows);
        let first = split_on(dir, c);
        let all = split_on(h, c);
        assert(all == first + segs);
        crate::text::pieces_join_to_the_text(dir, c);
        lemma_sum_has(v, way, '*');
        lemma_keeps_out(base, windows, '*');
        let k = first.len() as int;
        assert forall|j: int| 0 <= j < k implies !(#[trigger] all[j]).contains('*') by {
            assert(all[j] == first[j]);
            if first[j].contains('*') {
                assert(dir.contains('*'));
            }
        }
        assert(all[k] == pattern);
        assert(pattern[front.len() as int] == '*');
        lemma_has(pattern, front.len() as int);
        lemma_plain_segments(all, k);
        assert(all.take(k) =~= first);
        assert(all.skip(k) =~= segs);
        assert(h.contains('*')) by {
            lemma_keeps_out(e, windows, '*');
            assert(e[base.len() as int + 1 + front.len()] == '*');
            lemma_has(e, base.len() as int + 1 + front.len());
        }
        assert(segs.drop_first() =~= tail);
        assert(segs[0] == pattern);
        let start = seq![dir];
        assert(template_paths(t, windows, env, fs) == walked(start, segs, fs));
        if let Some(items) = fs(start) {
            lemma_starred_walk(start, items, front, back, tail, fs);
            let one = |item: ItemRow| start.push(item.name) + tail;
            let other = |item: ItemRow| seq![dir, item.name] + tail;
            let found = starred(items, front, back, tail.len() > 0);
            assert forall|i: int| 0 <= i < found.len() implies one(#[trigger] found[i]) == other(
                found[i],
            ) by {
                assert(start.push(found[i].name) =~= seq![dir, found[i].name]);
            }
            assert(found.map_values(one) =~= found.map_values(other));
        }
    }
}

proof fn lemma_written_front(first: Seq<char>, rest: Pieces)
    ensures
        written(seq![first] + rest) == seq!['\\'] + first + written(rest),
    decreases rest.len(),
{
    let all = seq![first] + rest;
    if rest.len() > 0 {
        lemma_written_front(first, rest.drop_last());
        assert(all.drop_last() =~= seq![first] + rest.drop_last());
        assert(written(all) =~= seq!['\\'] + first + written(rest));
    } else {
        assert(all.drop_last() =~= Seq::<Seq<char>>::empty());
        assert(all.last() == first);
        assert(written(all.drop_last()).len() == 0);
        assert(written(all) =~= seq!['\\'] + first + written(rest));
    }
}

/// A template without a star is one path: the variable's value and the text behind it.
pub proof fn a_plain_template_is_one_path(
    var: Seq<char>,
    way: Seq<char>,
    windows: bool,
    env: spec_fn(Seq<char>) -> Option<Seq<char>>,
    fs: Listing,
)
    requires
        !var.contains('%'),
        !way.contains('%'),
        !way.contains('*'),
        env(var) matches Some(v) ==> !v.contains('*'),
    ensures
        template_paths(seq!['%'] + var + seq!['%'] + way, windows, env, fs) == match env(var) {
            None => Seq::<Pieces>::empty(),
            Some(v) => seq![seq![on_platform(v + way, windows)]],
        },
{
    lemma_first_variable(var, way, env);
    if let Some(v) = env(var) {
        lemma_host_form(v + way, windows);
        lemma_sum_has(v, way, '*');
        lemma_keeps_out(v + way, windows, '*');
    }
}

/// Every path of a wanted row that exists is among the targets, by the key that tells paths apart,
/// whatever the other rows give.
pub proof fn what_exists_is_resolved(
    rows: Seq<TargetRow>,
    only: Option<Seq<Category>>,
    windows: bool,
    w: World,
    k: int,
    path: Pieces,
)
    requires
        0 <= k < rows.len(),
        only matches Some(list) ==> list.contains(rows[k].category),
        template_paths(rows[k].template, windows, w.env, w.fs).contains(path),
        (w.there)(path) is Some,
    ensures
        exists|i: int|
            0 <= i < resolved(rows, only, windows, w).len() && path_key(
                (#[trigger] resolved(rows, only, windows, w)[i]).path,
            ) == path_key((w.there)(path)->0),
    decreases rows.len(),
{
    let key = path_key((w.there)(path)->0);
    let row = rows.last();
    let before = resolved(rows.drop_last(), only, windows, w);
    let paths = template_paths(row.template, windows, w.env, w.fs);
    if k < rows.len() - 1 {
        assert(rows.drop_last()[k] == rows[k]);
        what_exists_is_resolved(rows.drop_last(), only, windows, w, k, path);
        let i = choose|i: int| 0 <= i < before.len() && path_key((#[trigger] before[i]).path) == key;
        if wanted(only, row.category) {
            lemma_paths_stay(before, row, paths, w.there, i);
            assert(path_key(resolved(rows, only, windows, w)[i].path) == key);
        }
    } else {
        let j = choose|j: int| 0 <= j < paths.len() && paths[j] == path;
        lemma_path_is_held(before, row, paths, w.there, j);
    }
}

proof fn lemma_paths_stay(
    list: Seq<ResolvedRow>,
    row: TargetRow,
    paths: Seq<Pieces>,
    there: Existing,
    i: int,
)
    requires
        0 <= i < list.len(),
    ensures
        i < with_paths(list, row, paths, there).len(),
        with_paths(list, row, paths, there)[i] == list[i],
    decreases paths.len(),
{
    if paths.len() > 0 {
        lemma_paths_stay(list, row, paths.drop_last(), there, i);
    }
}

proof fn lemma_path_is_held(
    list: Seq<ResolvedRow>,
    row: TargetRow,
    paths: Seq<Pieces>,
    there: Existing,
    j: int,
)
    requires
        0 <= j < paths.len(),
        there(paths[j]) is Some,
    ensures
        exists|i: int|
            0 <= i < with_paths(list, row, paths, there).len() && path_key(
                (#[trigger] with_paths(list, row, paths, there)[i]).path,
            ) == path_key(there(paths[j])->0),
    decreases paths.len(),
{
    let key = path_key(there(paths[j])->0);
    let front = with_paths(list, row, paths.drop_last(), there);
    let r = with_paths(list, row, paths, there);
    if j < paths.len() - 1 {
        assert(paths.drop_last()[j] == paths[j]);
        lemma_path_is_held(list, row, paths.drop_last(), there, j);
        let i = choose|i: int| 0 <= i < front.len() && path_key((#[trigger] front[i]).path) == key;
        assert(r[i] == front[i]);
    } else {
        assert(paths.last() == paths[j]);
        if has_key(front, key) {
            let i = choose|i: int| 0 <= i < front.len() && path_key((#[trigger] front[i]).path) == key;
            assert(r[i] == front[i]);
        } else {
            assert(r[front.len() as int].path == there(paths[j])->0);
        }
    }
}

/// No two targets of the list stand for one path.
pub open spec fn distinct_paths(list: Seq<ResolvedRow>) -> bool {
    forall|i: int, j: int|
        0 <= i < j < list.len() ==> path_key((#[trigger] list[i]).path) != path_key(
            (#[trigger] list[j]).path,
        )
}

/// Every target of the list is of a wanted category and comes, but for its path, from a row.
pub open spec fn drawn_from(
    list: Seq<ResolvedRow>,
    rows: Seq<TargetRow>,
    only: Option<Seq<Category>>,
) -> bool {
    forall|i: int|
        0 <= i < list.len() ==> wanted(only, (#[trigger] list[i]).category) && exists|k: int|
            0 <= k < rows.len() && #[trigger] is_from(list[i], rows[k])
}

/// The target comes from that row.
pub open spec fn is_from(t: ResolvedRow, row: TargetRow) -> bool {
    t.category == row.category && t.name == row.name && t.mode == row.mode
}

proof fn lemma_with_paths(
    list: Seq<ResolvedRow>,
    row: TargetRow,
    paths: Seq<Pieces>,
    there: Existing,
    rows: Seq<TargetRow>,
    only: Option<Seq<Category>>,
)
    requires
        distinct_paths(list),
        drawn_from(list, rows, only),
        wanted(only, row.category),
        rows.len() > 0,
        rows.last() == row,
    ensures
        distinct_paths(with_paths(list, row, paths, there)),
        drawn_from(with_paths(list, row, paths, there), rows, only),
    decreases paths.len(),
{
    if paths.len() > 0 {
        lemma_with_paths(list, row, paths.drop_last(), there, rows, only);
        let front = with_paths(list, row, paths.drop_last(), there);
        let r = with_paths(list, row, paths, there);
        assert forall|i: int| 0 <= i < r.len() implies wanted(only, (#[trigger] r[i]).category)
            && exists|k: int| 0 <= k < rows.len() && #[trigger] is_from(r[i], rows[k]) by {
            if i < front.len() {
                assert(r[i] == front[i]);
            } else {
                assert(is_from(r[i], rows[rows.len() - 1]));
            }
        }
    }
}

/// However the world answers, every path is resolved once, and every target is of a wanted
/// category and comes from the catalog.
pub proof fn resolving_keeps_paths_apart(
    rows: Seq<TargetRow>,
    only: Option<Seq<Category>>,
    windows: bool,
    w: World,
)
    ensures
        distinct_paths(resolved(rows, only, windows, w)),
        drawn_from(resolved(rows, only, windows, w), rows, only),
    decreases rows.len(),
{
    if rows.len() > 0 {
        let row = rows.last();
        let front = resolved(rows.drop_last(), only, windows, w);
        resolving_keeps_paths_apart(rows.drop_last(), only, windows, w);
        assert forall|i: int| 0 <= i < front.len() implies wanted(
            only,
            (#[trigger] front[i]).category,
        ) && exists|k: int| 0 <= k < rows.len() && #[trigger] is_from(front[i], rows[k]) by {
            let k = choose|k: int|
                0 <= k < rows.drop_last().len() && #[trigger] is_from(front[i], rows.drop_last()[k]);
            assert(is_from(front[i], rows[k]));
        }
        if wanted(only, row.category) {
            lemma_with_paths(
                front,
                row,
                template_paths(row.template, windows, w.env, w.fs),
                w.there,
                rows,
                only,
            );
        }
    }
}

/// The word that selects a category, and its heading, name that category.
pub proof fn category_words_name_their_category(c: Category)
    ensures
        category_named(c.key_text()) == Some(c),
        category_named(c.label_text()) == Some(c),
{
    reveal_strlit("temp");
    reveal_strlit("system");
    reveal_strlit("browser");
    reveal_strlit("browsers");
    reveal_strlit("dev");
    reveal_strlit("apps");
    reveal_strlit("app");
    reveal_strlit("Temp");
    reveal_strlit("System");
    reveal_strlit("Browser");
    reveal_strlit("Dev");
    reveal_strlit("Apps");
    assert(ascii_lower(c.key_text()) =~= c.key_text());
    assert(ascii_lower(c.label_text()) =~= c.key_text());
    let k = c.key_text();
    assert("temp"@.len() == 4 && "system"@.len() == 6 && "browser"@.len() == 7);
    assert("temp"@[0] == 't' && "dev"@[0] == 'd' && "apps"@[0] == 'a');
}

/// A place that only an administrator may clean, or a store that is slow to download again, is never of
/// low risk; everything else is. A store is told by the end of its path, whatever its case and
/// separators.
pub proof fn risk_is_told_by_owner_and_store(t: ResolvedRow, front: Seq<char>, store: Seq<char>)
    requires
        store == "\\.m2\\repository"@ || store == "\\.gradle\\caches"@ || store
            == "\\.nuget\\packages"@ || store == "\\pnpm\\store"@,
    ensures
        ({
            let m = metadata_of(t);
            &&& m.requires_admin == (t.category == Category::System || t.name == "Windows temp"@)
            &&& m.risk == Risk::Low <==> !m.requires_admin && !m.expensive
            &&& m.expensive <==> m.redownload_cost == "high"@
            &&& !m.expensive <==> m.redownload_cost == "low"@
            &&& t.path.len() == front.len() + store.len() && t.path.take(front.len() as int) == front
                && (forall|i: int|
                0 <= i < store.len() ==> #[trigger] store[i] == crate::text::ascii_lower_char(
                    t.path[front.len() + i],
                ) || (store[i] == '\\' && t.path[front.len() + i] == '/')) ==> m.expensive
        }),
{
    reveal_strlit("high");
    reveal_strlit("low");
    assert("high"@.len() == 4 && "low"@.len() == 3);
    let flat = replaced(t.path, '/', seq!['\\']);
    crate::text::replacing_keeps_places(t.path, '/', '\\');
    let p = ascii_lower(flat);
    if t.path.len() == front.len() + store.len() && forall|i: int|
        0 <= i < store.len() ==> #[trigger] store[i] == crate::text::ascii_lower_char(
            t.path[front.len() + i],
        ) || (store[i] == '\\' && t.path[front.len() + i] == '/') {
        reveal_strlit("\\.m2\\repository");
        reveal_strlit("\\.gradle\\caches");
        reveal_strlit("\\.nuget\\packages");
        reveal_strlit("\\pnpm\\store");
        let n = front.len() as int;
        assert(p.len() == t.path.len());
        assert forall|i: int| 0 <= i < store.len() implies p[n + i] == #[trigger] store[i] by {
            assert(flat[n + i] == if t.path[n + i] == '/' {
                '\\'
            } else {
                t.path[n + i]
            });
            assert(store[i] != '/');
        }
        assert(p.subrange(n, n + store.len()) =~= store);
    }
}

/// The program of a target whose name begins with the name of the product.
pub open spec fn is_owned(product: Seq<char>, program: Seq<char>) -> bool {
    ||| product == "Chrome "@ && program == "chrome.exe"@
    ||| product == "Edge "@ && program == "msedge.exe"@
    ||| product == "Firefox "@ && program == "firefox.exe"@
    ||| product == "VS Code "@ && program == "Code.exe"@
    ||| product == "Discord "@ && program == "Discord.exe"@
    ||| product == "Slack "@ && program == "slack.exe"@
    ||| product == "Teams "@ && program == "Teams.exe"@
    ||| product == "Spotify "@ && program == "Spotify.exe"@
}

/// The caches of a product belong to its program, whatever they are called beyond that.
pub proof fn caches_belong_to_their_program(
    t: ResolvedRow,
    product: Seq<char>,
    program: Seq<char>,
    rest: Seq<char>,
)
    requires
        is_owned(product, program),
        t.name == product + rest,
    ensures
        metadata_of(t).associated_app == Some(program),
{
    reveal_strlit("Chrome ");
    reveal_strlit("Edge ");
    reveal_strlit("Firefox ");
    reveal_strlit("VS Code ");
    reveal_strlit("Discord ");
    reveal_strlit("Slack ");
    reveal_strlit("Teams ");
    reveal_strlit("Spotify ");
    let n = t.name;
    assert(n.subrange(0, product.len() as int) =~= product);
    assert(n[0] == product[0] && n[1] == product[1]);
    lemma_prefix_begins(n, "Chrome "@);
    lemma_prefix_begins(n, "Edge "@);
    lemma_prefix_begins(n, "Firefox "@);
    lemma_prefix_begins(n, "VS Code "@);
    lemma_prefix_begins(n, "Discord "@);
    lemma_prefix_begins(n, "Slack "@);
    lemma_prefix_begins(n, "Teams "@);
}

proof fn lemma_prefix_begins(s: Seq<char>, p: Seq<char>)
    requires
        p.len() > 1,
    ensures
        has_prefix(s, p) ==> s[0] == p[0] && s[1] == p[1],
{
    if has_prefix(s, p) {
        let t = s.subrange(0, p.len() as int);
        assert(t[0] == s[0] && t[1] == s[1]);
    }
}

/// A character as paths are told apart by: case and the kind of a separator do not count.
pub open spec fn told_char(c: char) -> char {
    if c == '/' {
        '\\'
    } else {
        crate::text::ascii_lower_char(c)
    }
}

/// Two paths are taken for one where they differ in nothing but the case of ASCII letters and the kind of
/// their separators, and where they differ in anything else they are kept apart.
pub proof fn paths_are_told_apart_by_their_names(a: Seq<char>, b: Seq<char>)
    requires
        crate::text::all_ascii(a),
        crate::text::all_ascii(b),
    ensures
        path_key(a) == path_key(b) <==> a.len() == b.len() && forall|i: int|
            0 <= i < a.len() ==> told_char(#[trigger] a[i]) == told_char(b[i]),
{
    lemma_path_key(a);
    lemma_path_key(b);
    let x = path_key(a);
    let y = path_key(b);
    if x == y {
        assert forall|i: int| 0 <= i < a.len() implies told_char(#[trigger] a[i]) == told_char(b[i]) by {
            assert(x[i] == y[i]);
        }
    }
    if a.len() == b.len() && forall|i: int|
        0 <= i < a.len() ==> told_char(#[trigger] a[i]) == told_char(b[i]) {
        assert forall|i: int| 0 <= i < x.len() implies #[trigger] x[i] == y[i] by {
            assert(told_char(a[i]) == told_char(b[i]));
        }
        assert(x =~= y);
    }
}

proof fn lemma_path_key(a: Seq<char>)
    requires
        crate::text::all_ascii(a),
    ensures
        path_key(a).len() == a.len(),
        forall|i: int| 0 <= i < a.len() ==> #[trigger] path_key(a)[i] == told_char(a[i]),
{
    crate::text::replacing_keeps_places(a, '/', '\\');
    let flat = replaced(a, '/', seq!['\\']);
    assert(crate::text::all_ascii(flat));
}

/// Every target is what a row of the catalog leads to: it has the category, the name and the mode of the
/// row, its category was asked for, and its path is that of an existing place that the row's template
/// expands to.
pub proof fn targets_come_from_their_rows(
    rows: Seq<TargetRow>,
    only: Option<Seq<Category>>,
    windows: bool,
    w: World,
    i: int,
) -> (p: (int, int))
    requires
        0 <= i < resolved(rows, only, windows, w).len(),
    ensures
        ({
            let t = resolved(rows, only, windows, w)[i];
            let (k, j) = p;
            &&& 0 <= k < rows.len()
            &&& t.category == rows[k].category
            &&& t.name == rows[k].name
            &&& t.mode == rows[k].mode
            &&& (only matches Some(list) ==> list.contains(t.category))
            &&& 0 <= j < template_paths(rows[k].template, windows, w.env, w.fs).len()
            &&& (w.there)(template_paths(rows[k].template, windows, w.env, w.fs)[j]) == Some(t.path)
        }),
    decreases rows.len(),
{
    let front = resolved(rows.drop_last(), only, windows, w);
    if i < front.len() {
        let p = targets_come_from_their_rows(rows.drop_last(), only, windows, w, i);
        assert(rows.drop_last()[p.0] == rows[p.0]);
        let paths = template_paths(rows.last().template, windows, w.env, w.fs);
        if wanted(only, rows.last().category) {
            lemma_paths_stay(front, rows.last(), paths, w.there, i);
        }
        p
    } else {
        let row = rows.last();
        let paths = template_paths(row.template, windows, w.env, w.fs);
        let j = lemma_where_from(front, row, paths, w.there, i);
        (rows.len() - 1, j)
    }
}

proof fn lemma_where_from(
    list: Seq<ResolvedRow>,
    row: TargetRow,
    paths: Seq<Pieces>,
    there: Existing,
    i: int,
) -> (j: int)
    requires
        list.len() <= i < with_paths(list, row, paths, there).len(),
    ensures
        0 <= j < paths.len(),
        there(paths[j]) == Some(with_paths(list, row, paths, there)[i].path),
        with_paths(list, row, paths, there)[i].category == row.category,
        with_paths(list, row, paths, there)[i].name == row.name,
        with_paths(list, row, paths, there)[i].mode == row.mode,
    decreases paths.len(),
{
    let front = with_paths(list, row, paths.drop_last(), there);
    if i < front.len() {
        let j = lemma_where_from(list, row, paths.drop_last(), there, i);
        assert(paths.drop_last()[j] == paths[j]);
        j
    } else {
        assert(paths[paths.len() - 1] == paths.last());
        paths.len() - 1
    }
}

/// The places of temporary files.
pub open spec fn is_temp_cache(name: Seq<char>, template: Seq<char>) -> bool {
    ||| name == "User temp"@ && template == "%TEMP%"@
    ||| name == "Windows temp"@ && template == "%SystemRoot%\\Temp"@
}

/// The cache files of Windows that are deleted one by one.
pub open spec fn is_system_entry(name: Seq<char>, template: Seq<char>) -> bool {
    ||| name == "Thumbnail cache"@ && template == "%LOCALAPPDATA%\\Microsoft\\Windows\\Explorer\\thumbcache_*.db"@
    ||| name == "Icon cache"@ && template == "%LOCALAPPDATA%\\Microsoft\\Windows\\Explorer\\iconcache_*.db"@
}

/// The caches of Windows, by the name they are shown under.
pub open spec fn is_system_cache(name: Seq<char>, template: Seq<char>) -> bool {
    ||| name == "Internet cache (INetCache)"@ && template == "%LOCALAPPDATA%\\Microsoft\\Windows\\INetCache"@
    ||| name == "Crash dumps"@ && template == "%LOCALAPPDATA%\\CrashDumps"@
    ||| name == "Error reports (WER archive)"@ && template == "%LOCALAPPDATA%\\Microsoft\\Windows\\WER\\ReportArchive"@
    ||| name == "Error reports (WER queue)"@ && template == "%LOCALAPPDATA%\\Microsoft\\Windows\\WER\\ReportQueue"@
    ||| name == "DirectX shader cache"@ && template == "%LOCALAPPDATA%\\D3DSCache"@
    ||| name == "NVIDIA DX shader cache"@ && template == "%LOCALAPPDATA%\\NVIDIA\\DXCache"@
    ||| name == "NVIDIA GL shader cache"@ && template == "%LOCALAPPDATA%\\NVIDIA\\GLCache"@
    ||| name == "AMD DX shader cache"@ && template == "%LOCALAPPDATA%\\AMD\\DxCache"@
}

/// The caches of browsers, by the name they are shown under.
pub open spec fn is_browser_cache(name: Seq<char>, template: Seq<char>) -> bool {
    ||| name == "Chrome cache"@ && template == "%LOCALAPPDATA%\\Google\\Chrome\\User Data\\*\\Cache"@
    ||| name == "Chrome code cache"@ && template == "%LOCALAPPDATA%\\Google\\Chrome\\User Data\\*\\Code Cache"@
    ||| name == "Chrome GPU cache"@ && template == "%LOCALAPPDATA%\\Google\\Chrome\\User Data\\*\\GPUCache"@
    ||| name == "Edge cache"@ && template == "%LOCALAPPDATA%\\Microsoft\\Edge\\User Data\\*\\Cache"@
    ||| name == "Edge code cache"@ && template == "%LOCALAPPDATA%\\Microsoft\\Edge\\User Data\\*\\Code Cache"@
    ||| name == "Edge GPU cache"@ && template == "%LOCALAPPDATA%\\Microsoft\\Edge\\User Data\\*\\GPUCache"@
    ||| name == "Firefox cache"@ && template == "%LOCALAPPDATA%\\Mozilla\\Firefox\\Profiles\\*\\cache2"@
}

/// The caches of developer tools, by the name they are shown under.
pub open spec fn is_dev_cache(name: Seq<char>, template: Seq<char>) -> bool {
    ||| name == "npm cache"@ && template == "%LOCALAPPDATA%\\npm-cache"@
    ||| name == "pnpm cache"@ && template == "%LOCALAPPDATA%\\pnpm-cache"@
    ||| name == "Yarn cache"@ && template == "%LOCALAPPDATA%\\Yarn\\Cache"@
    ||| name == "pip cache"@ && template == "%LOCALAPPDATA%\\pip\\cache"@
    ||| name == "uv cache"@ && template == "%LOCALAPPDATA%\\uv\\cache"@
    ||| name == "Cargo registry cache"@ && template == "%USERPROFILE%\\.cargo\\registry\\cache"@
    ||| name == "Go build cache"@ && template == "%LOCALAPPDATA%\\go-build"@
    ||| name == "NuGet HTTP cache"@ && template == "%LOCALAPPDATA%\\NuGet\\v3-cache"@
    ||| name == "VS Code cache"@ && template == "%APPDATA%\\Code\\Cache"@
    ||| name == "VS Code cached data"@ && template == "%APPDATA%\\Code\\CachedData"@
    ||| name == "VS Code code cache"@ && template == "%APPDATA%\\Code\\Code Cache"@
    ||| name == "VS Code GPU cache"@ && template == "%APPDATA%\\Code\\GPUCache"@
    ||| name == "JetBrains caches"@ && template == "%LOCALAPPDATA%\\JetBrains\\*\\caches"@
}

/// The caches of applications, by the name they are shown under.
pub open spec fn is_apps_cache(name: Seq<char>, template: Seq<char>) -> bool {
    ||| name == "Discord cache"@ && template == "%APPDATA%\\discord\\Cache"@
    ||| name == "Discord code cache"@ && template == "%APPDATA%\\discord\\Code Cache"@
    ||| name == "Discord GPU cache"@ && template == "%APPDATA%\\discord\\GPUCache"@
    ||| name == "Slack cache"@ && template == "%APPDATA%\\Slack\\Cache"@
    ||| name == "Slack GPU cache"@ && template == "%APPDATA%\\Slack\\GPUCache"@
    ||| name == "Teams cache (classic)"@ && template == "%APPDATA%\\Microsoft\\Teams\\Cache"@
    ||| name == "Spotify browser storage"@ && template == "%LOCALAPPDATA%\\Spotify\\Storage"@
}

/// What is cleaned is known by name: a place is looked for under its name, in its category and its mode.
pub open spec fn is_known_place(
    category: Category,
    name: Seq<char>,
    template: Seq<char>,
    mode: Mode,
) -> bool {
    ||| category == Category::Temp && mode == Mode::Contents && is_temp_cache(name, template)
    ||| category == Category::System && mode == Mode::Entry && is_system_entry(name, template)
    ||| category == Category::System && mode == Mode::Contents && is_system_cache(name, template)
    ||| category == Category::Browser && mode == Mode::Contents && is_browser_cache(name, template)
    ||| category == Category::Dev && mode == Mode::Contents && is_dev_cache(name, template)
    ||| category == Category::Apps && mode == Mode::Contents && is_apps_cache(name, template)
}

/// Each place that is known by name is in the catalog, and the catalog holds nothing else: the caches of a
/// directory are emptied, and only the files of the thumbnail and icon caches are deleted themselves.
pub proof fn known_places_are_in_the_catalog(t: TargetRow)
    ensures
        is_known_place(t.category, t.name, t.template, t.mode) <==> catalog().contains(t),
{
    let all = catalog();
    assert(all.len() == 39);
    assert(all[0] == row(Category::Temp, "User temp"@, "%TEMP%"@, Mode::Contents));
    assert(all[1] == row(Category::Temp, "Windows temp"@, "%SystemRoot%\\Temp"@, Mode::Contents));
    assert(all[2] == row(Category::System, "Thumbnail cache"@, "%LOCALAPPDATA%\\Microsoft\\Windows\\Explorer\\thumbcache_*.db"@, Mode::Entry));
    assert(all[3] == row(Category::System, "Icon cache"@, "%LOCALAPPDATA%\\Microsoft\\Windows\\Explorer\\iconcache_*.db"@, Mode::Entry));
    assert(all[4] == row(Category::System, "Internet cache (INetCache)"@, "%LOCALAPPDATA%\\Microsoft\\Windows\\INetCache"@, Mode::Contents));
    assert(all[5] == row(Category::System, "Crash dumps"@, "%LOCALAPPDATA%\\CrashDumps"@, Mode::Contents));
    assert(all[6] == row(Category::System, "Error reports (WER archive)"@, "%LOCALAPPDATA%\\Microsoft\\Windows\\WER\\ReportArchive"@, Mode::Contents));
    assert(all[7] == row(Category::System, "Error reports (WER queue)"@, "%LOCALAPPDATA%\\Microsoft\\Windows\\WER\\ReportQueue"@, Mode::Contents));
    assert(all[8] == row(Category::System, "DirectX shader cache"@, "%LOCALAPPDATA%\\D3DSCache"@, Mode::Contents));
    assert(all[9] == row(Category::System, "NVIDIA DX shader cache"@, "%LOCALAPPDATA%\\NVIDIA\\DXCache"@, Mode::Contents));
    assert(all[10] == row(Category::System, "NVIDIA GL shader cache"@, "%LOCALAPPDATA%\\NVIDIA\\GLCache"@, Mode::Contents));
    assert(all[11] == row(Category::System, "AMD DX shader cache"@, "%LOCALAPPDATA%\\AMD\\DxCache"@, Mode::Contents));
    assert(all[12] == row(Category::Browser, "Chrome cache"@, "%LOCALAPPDATA%\\Google\\Chrome\\User Data\\*\\Cache"@, Mode::Contents));
    assert(all[13] == row(Category::Browser, "Chrome code cache"@, "%LOCALAPPDATA%\\Google\\Chrome\\User Data\\*\\Code Cache"@, Mode::Contents));
    assert(all[14] == row(Category::Browser, "Chrome GPU cache"@, "%LOCALAPPDATA%\\Google\\Chrome\\User Data\\*\\GPUCache"@, Mode::Contents));
    assert(all[15] == row(Category::Browser, "Edge cache"@, "%LOCALAPPDATA%\\Microsoft\\Edge\\User Data\\*\\Cache"@, Mode::Contents));
    assert(all[16] == row(Category::Browser, "Edge code cache"@, "%LOCALAPPDATA%\\Microsoft\\Edge\\User Data\\*\\Code Cache"@, Mode::Contents));
    assert(all[17] == row(Category::Browser, "Edge GPU cache"@, "%LOCALAPPDATA%\\Microsoft\\Edge\\User Data\\*\\GPUCache"@, Mode::Contents));
    assert(all[18] == row(Category::Browser, "Firefox cache"@, "%LOCALAPPDATA%\\Mozilla\\Firefox\\Profiles\\*\\cache2"@, Mode::Contents));
    assert(all[19] == row(Category::Dev, "npm cache"@, "%LOCALAPPDATA%\\npm-cache"@, Mode::Contents));
    assert(all[20] == row(Category::Dev, "pnpm cache"@, "%LOCALAPPDATA%\\pnpm-cache"@, Mode::Contents));
    assert(all[21] == row(Category::Dev, "Yarn cache"@, "%LOCALAPPDATA%\\Yarn\\Cache"@, Mode::Contents));
    assert(all[22] == row(Category::Dev, "pip cache"@, "%LOCALAPPDATA%\\pip\\cache"@, Mode::Contents));
    assert(all[23] == row(Category::Dev, "uv cache"@, "%LOCALAPPDATA%\\uv\\cache"@, Mode::Contents));
    assert(all[24] == row(Category::Dev, "Cargo registry cache"@, "%USERPROFILE%\\.cargo\\registry\\cache"@, Mode::Contents));
    assert(all[25] == row(Category::Dev, "Go build cache"@, "%LOCALAPPDATA%\\go-build"@, Mode::Contents));
    assert(all[26] == row(Category::Dev, "NuGet HTTP cache"@, "%LOCALAPPDATA%\\NuGet\\v3-cache"@, Mode::Contents));
    assert(all[27] == row(Category::Dev, "VS Code cache"@, "%APPDATA%\\Code\\Cache"@, Mode::Contents));
    assert(all[28] == row(Category::Dev, "VS Code cached data"@, "%APPDATA%\\Code\\CachedData"@, Mode::Contents));
    assert(all[29] == row(Category::Dev, "VS Code code cache"@, "%APPDATA%\\Code\\Code Cache"@, Mode::Contents));
    assert(all[30] == row(Category::Dev, "VS Code GPU cache"@, "%APPDATA%\\Code\\GPUCache"@, Mode::Contents));
    assert(all[31] == row(Category::Dev, "JetBrains caches"@, "%LOCALAPPDATA%\\JetBrains\\*\\caches"@, Mode::Contents));
    assert(all[32] == row(Category::Apps, "Discord cache"@, "%APPDATA%\\discord\\Cache"@, Mode::Contents));
    assert(all[33] == row(Category::Apps, "Discord code cache"@, "%APPDATA%\\discord\\Code Cache"@, Mode::Contents));
    assert(all[34] == row(Category::Apps, "Discord GPU cache"@, "%APPDATA%\\discord\\GPUCache"@, Mode::Contents));
    assert(all[35] == row(Category::Apps, "Slack cache"@, "%APPDATA%\\Slack\\Cache"@, Mode::Contents));
    assert(all[36] == row(Category::Apps, "Slack GPU cache"@, "%APPDATA%\\Slack\\GPUCache"@, Mode::Contents));
    assert(all[37] == row(Category::Apps, "Teams cache (classic)"@, "%APPDATA%\\Microsoft\\Teams\\Cache"@, Mode::Contents));
    assert(all[38] == row(Category::Apps, "Spotify browser storage"@, "%LOCALAPPDATA%\\Spotify\\Storage"@, Mode::Contents));
    if all.contains(t) {
        let k = choose|k: int| 0 <= k < all.len() && all[k] == t;
        lemma_known(k);
    }
}

proof fn lemma_known(k: int)
    requires
        0 <= k < catalog().len(),
    ensures
        is_known_place(
            catalog()[k].category,
            catalog()[k].name,
            catalog()[k].template,
            catalog()[k].mode,
        ),
{
    let all = catalog();
    assert(all.len() == 39);
    assert(all[0] == row(Category::Temp, "User temp"@, "%TEMP%"@, Mode::Contents));
    assert(all[1] == row(Category::Temp, "Windows temp"@, "%SystemRoot%\\Temp"@, Mode::Contents));
    assert(all[2] == row(Category::System, "Thumbnail cache"@, "%LOCALAPPDATA%\\Microsoft\\Windows\\Explorer\\thumbcache_*.db"@, Mode::Entry));
    assert(all[3] == row(Category::System, "Icon cache"@, "%LOCALAPPDATA%\\Microsoft\\Windows\\Explorer\\iconcache_*.db"@, Mode::Entry));
    assert(all[4] == row(Category::System, "Internet cache (INetCache)"@, "%LOCALAPPDATA%\\Microsoft\\Windows\\INetCache"@, Mode::Contents));
    assert(all[5] == row(Category::System, "Crash dumps"@, "%LOCALAPPDATA%\\CrashDumps"@, Mode::Contents));
    assert(all[6] == row(Category::System, "Error reports (WER archive)"@, "%LOCALAPPDATA%\\Microsoft\\Windows\\WER\\ReportArchive"@, Mode::Contents));
    assert(all[7] == row(Category::System, "Error reports (WER queue)"@, "%LOCALAPPDATA%\\Microsoft\\Windows\\WER\\ReportQueue"@, Mode::Contents));
    assert(all[8] == row(Category::System, "DirectX shader cache"@, "%LOCALAPPDATA%\\D3DSCache"@, Mode::Contents));
    assert(all[9] == row(Category::System, "NVIDIA DX shader cache"@, "%LOCALAPPDATA%\\NVIDIA\\DXCache"@, Mode::Contents));
    assert(all[10] == row(Category::System, "NVIDIA GL shader cache"@, "%LOCALAPPDATA%\\NVIDIA\\GLCache"@, Mode::Contents));
    assert(all[11] == row(Category::System, "AMD DX shader cache"@, "%LOCALAPPDATA%\\AMD\\DxCache"@, Mode::Contents));
    assert(all[12] == row(Category::Browser, "Chrome cache"@, "%LOCALAPPDATA%\\Google\\Chrome\\User Data\\*\\Cache"@, Mode::Contents));
    assert(all[13] == row(Category::Browser, "Chrome code cache"@, "%LOCALAPPDATA%\\Google\\Chrome\\User Data\\*\\Code Cache"@, Mode::Contents));
    assert(all[14] == row(Category::Browser, "Chrome GPU cache"@, "%LOCALAPPDATA%\\Google\\Chrome\\User Data\\*\\GPUCache"@, Mode::Contents));
    assert(all[15] == row(Category::Browser, "Edge cache"@, "%LOCALAPPDATA%\\Microsoft\\Edge\\User Data\\*\\Cache"@, Mode::Contents));
    assert(all[16] == row(Category::Browser, "Edge code cache"@, "%LOCALAPPDATA%\\Microsoft\\Edge\\User Data\\*\\Code Cache"@, Mode::Contents));
    assert(all[17] == row(Category::Browser, "Edge GPU cache"@, "%LOCALAPPDATA%\\Microsoft\\Edge\\User Data\\*\\GPUCache"@, Mode::Contents));
    assert(all[18] == row(Category::Browser, "Firefox cache"@, "%LOCALAPPDATA%\\Mozilla\\Firefox\\Profiles\\*\\cache2"@, Mode::Contents));
    assert(all[19] == row(Category::Dev, "npm cache"@, "%LOCALAPPDATA%\\npm-cache"@, Mode::Contents));
    assert(all[20] == row(Category::Dev, "pnpm cache"@, "%LOCALAPPDATA%\\pnpm-cache"@, Mode::Contents));
    assert(all[21] == row(Category::Dev, "Yarn cache"@, "%LOCALAPPDATA%\\Yarn\\Cache"@, Mode::Contents));
    assert(all[22] == row(Category::Dev, "pip cache"@, "%LOCALAPPDATA%\\pip\\cache"@, Mode::Contents));
    assert(all[23] == row(Category::Dev, "uv cache"@, "%LOCALAPPDATA%\\uv\\cache"@, Mode::Contents));
    assert(all[24] == row(Category::Dev, "Cargo registry cache"@, "%USERPROFILE%\\.cargo\\registry\\cache"@, Mode::Contents));
    assert(all[25] == row(Category::Dev, "Go build cache"@, "%LOCALAPPDATA%\\go-build"@, Mode::Contents));
    assert(all[26] == row(Category::Dev, "NuGet HTTP cache"@, "%LOCALAPPDATA%\\NuGet\\v3-cache"@, Mode::Contents));
    assert(all[27] == row(Category::Dev, "VS Code cache"@, "%APPDATA%\\Code\\Cache"@, Mode::Contents));
    assert(all[28] == row(Category::Dev, "VS Code cached data"@, "%APPDATA%\\Code\\CachedData"@, Mode::Contents));
    assert(all[29] == row(Category::Dev, "VS Code code cache"@, "%APPDATA%\\Code\\Code Cache"@, Mode::Contents));
    assert(all[30] == row(Category::Dev, "VS Code GPU cache"@, "%APPDATA%\\Code\\GPUCache"@, Mode::Contents));
    assert(all[31] == row(Category::Dev, "JetBrains caches"@, "%LOCALAPPDATA%\\JetBrains\\*\\caches"@, Mode::Contents));
    assert(all[32] == row(Category::Apps, "Discord cache"@, "%APPDATA%\\discord\\Cache"@, Mode::Contents));
    assert(all[33] == row(Category::Apps, "Discord code cache"@, "%APPDATA%\\discord\\Code Cache"@, Mode::Contents));
    assert(all[34] == row(Category::Apps, "Discord GPU cache"@, "%APPDATA%\\discord\\GPUCache"@, Mode::Contents));
    assert(all[35] == row(Category::Apps, "Slack cache"@, "%APPDATA%\\Slack\\Cache"@, Mode::Contents));
    assert(all[36] == row(Category::Apps, "Slack GPU cache"@, "%APPDATA%\\Slack\\GPUCache"@, Mode::Contents));
    assert(all[37] == row(Category::Apps, "Teams cache (classic)"@, "%APPDATA%\\Microsoft\\Teams\\Cache"@, Mode::Contents));
    assert(all[38] == row(Category::Apps, "Spotify browser storage"@, "%LOCALAPPDATA%\\Spotify\\Storage"@, Mode::Contents));
}

} // verus!
