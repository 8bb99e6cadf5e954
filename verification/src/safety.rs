//! The safety guard: every deletion must pass `Safety::check`.
//!
//! A path may be deleted when it is absolute, has no `..`, is deep enough, is no protected root, is
//! in no denied tree, and lies strictly inside an allowed base. Without an allowed base nothing may
//! be deleted. The user's whitelist names what is kept on top of that.

use vstd::prelude::*;
use vstd::slice::slice_subrange;

use crate::glob::{fits_any_case, wildcard_match};
use crate::paths::{
    is_path_of, is_same_path, path_below, path_list, path_starts_with, path_texts, reads_as,
    same_path, starts_at, well_read, PartKind, PartRow, PathParts, PathRow,
};
use crate::targets::{answers, answers_all, expand_vars, expanded};
use crate::text::{
    append, chars_of, folded, has_char, has_prefix, lines, lines_of, no_texts, push_text, rows, starts_with,
    str_texts, string_of, text_opt, texts, trim, trimmed,
};

verus! {

/// What may be deleted, and what is kept.
pub struct Safety {
    /// Paths that must never be deleted themselves; their children may be, under an allowed base.
    protected_roots: Vec<PathParts>,
    /// Deletions must happen strictly inside one of these.
    allowed_bases: Vec<PathParts>,
    /// Trees that are entirely off limits.
    denied_trees: Vec<PathParts>,
    /// The user's whitelist: what matches is skipped.
    whitelist: Vec<PathParts>,
}

/// The guard as mathematical data.
pub struct SafetyRow {
    pub protected: Seq<PathRow>,
    pub bases: Seq<PathRow>,
    pub denied: Seq<PathRow>,
    pub whitelist: Seq<PathRow>,
}

impl View for Safety {
    type V = SafetyRow;

    closed spec fn view(&self) -> SafetyRow {
        SafetyRow {
            protected: path_list(self.protected_roots@),
            bases: path_list(self.allowed_bases@),
            denied: path_list(self.denied_trees@),
            whitelist: path_list(self.whitelist@),
        }
    }
}

/// How many parts are plain names.
pub open spec fn name_count(parts: Seq<PartRow>) -> nat {
    parts.filter(|p: PartRow| p.kind == PartKind::Normal).len()
}

/// A part is `..`.
pub open spec fn has_parent(parts: Seq<PartRow>) -> bool {
    exists|i: int| 0 <= i < parts.len() && (#[trigger] parts[i]).kind == PartKind::ParentDir
}

/// The path is one of the list.
pub open spec fn is_one_of(p: PathRow, list: Seq<PathRow>) -> bool {
    exists|i: int| 0 <= i < list.len() && same_path(p, #[trigger] list[i])
}

/// The path is one of the trees, or inside one.
pub open spec fn in_a_tree(p: PathRow, trees: Seq<PathRow>) -> bool {
    exists|i: int| 0 <= i < trees.len() && starts_at(p, #[trigger] trees[i])
}

/// The path lies inside one of the bases and is not that base itself.
pub open spec fn strictly_inside(p: PathRow, bases: Seq<PathRow>) -> bool {
    exists|i: int|
        0 <= i < bases.len() && starts_at(p, #[trigger] bases[i]) && !same_path(p, bases[i])
}

/// Why a path must not be deleted; `None` when it may be.
pub open spec fn refusal(s: SafetyRow, p: PathRow) -> Option<Seq<char>> {
    if !p.absolute {
        Some("not an absolute path"@)
    } else if has_parent(p.parts) {
        Some("contains '..'"@)
    } else if name_count(p.parts) < 2 {
        Some("path too shallow"@)
    } else if is_one_of(p, s.protected) {
        Some("protected root"@)
    } else if in_a_tree(p, s.denied) {
        Some("inside a protected system tree"@)
    } else if !strictly_inside(p, s.bases) {
        Some("outside allowed base directories"@)
    } else {
        None
    }
}

/// A whitelist entry keeps a path: one with a star matches the whole path as a pattern, one without
/// stands for a path and everything below it.
pub open spec fn keeps(entry: PathRow, p: PathRow) -> bool {
    if entry.text.contains('*') {
        fits_any_case(entry.text, p.text)
    } else {
        same_path(p, entry) || starts_at(p, entry)
    }
}

/// Some entry of the whitelist keeps the path.
pub open spec fn whitelisted(s: SafetyRow, p: PathRow) -> bool {
    exists|i: int| 0 <= i < s.whitelist.len() && keeps(#[trigger] s.whitelist[i], p)
}

/// The outcome of a check, as the reason for a refusal.
pub open spec fn reason_of(r: Result<(), &'static str>) -> Option<Seq<char>> {
    match r {
        Ok(_) => None,
        Err(e) => Some(e@),
    }
}

/// Every path of the guard is what some platform reads in its text.
pub open spec fn guard_well_read(s: SafetyRow) -> bool {
    &&& forall|i: int| 0 <= i < s.protected.len() ==> well_read(#[trigger] s.protected[i])
    &&& forall|i: int| 0 <= i < s.bases.len() ==> well_read(#[trigger] s.bases[i])
    &&& forall|i: int| 0 <= i < s.denied.len() ==> well_read(#[trigger] s.denied[i])
    &&& forall|i: int| 0 <= i < s.whitelist.len() ==> well_read(#[trigger] s.whitelist[i])
}

impl Safety {
    /// A guard with the given lists.
    pub fn new(
        protected_roots: Vec<PathParts>,
        allowed_bases: Vec<PathParts>,
        denied_trees: Vec<PathParts>,
        whitelist: Vec<PathParts>,
    ) -> (r: Safety)
        ensures
            r@ == (SafetyRow {
                protected: path_list(protected_roots@),
                bases: path_list(allowed_bases@),
                denied: path_list(denied_trees@),
                whitelist: path_list(whitelist@),
            }),
    {
        Safety { protected_roots, allowed_bases, denied_trees, whitelist }
    }

    /// The hard safety check on a path and its parts. `Err` means that the path must not be deleted.
    pub fn check_parts(&self, path: &PathParts) -> (r: Result<(), &'static str>)
        ensures
            reason_of(r) == refusal(self@, path@),
    {
        if !path.absolute {
            return Err("not an absolute path");
        }
        let ghost parts = path@.parts;
        let ghost normal = |p: PartRow| p.kind == PartKind::Normal;
        let mut normals: usize = 0;
        assert(parts.take(0).filter(normal).len() == 0) by {
            reveal(Seq::filter);
        }
        for i in 0..path.parts.len()
            invariant
                path@.absolute,
                parts == path@.parts,
                normal == (|p: PartRow| p.kind == PartKind::Normal),
                normals == parts.take(i as int).filter(normal).len(),
                normals <= i,
                forall|j: int| 0 <= j < i ==> (#[trigger] parts[j]).kind != PartKind::ParentDir,
        {
            assert(parts[i as int] == path.parts@[i as int]@);
            proof {
                assert(parts.take(i + 1).drop_last() =~= parts.take(i as int));
                reveal(Seq::filter);
            }
            match path.parts[i].kind {
                PartKind::ParentDir => {
                    return Err("contains '..'");
                },
                PartKind::Normal => {
                    normals = normals + 1;
                },
                _ => {},
            }
        }
        assert(parts.take(parts.len() as int) =~= parts);
        if normals < 2 {
            return Err("path too shallow");
        }
        if any_same(path, &self.protected_roots) {
            return Err("protected root");
        }
        if any_tree(path, &self.denied_trees) {
            return Err("inside a protected system tree");
        }
        if !any_inside(path, &self.allowed_bases) {
            return Err("outside allowed base directories");
        }
        Ok(())
    }

    /// The hard safety check. `Err` means that the path must not be deleted.
    pub fn check(&self, path: &str) -> (r: Result<(), &'static str>)
        ensures
            exists|p: PathRow|
                #[trigger] reads_as(path@, p) && reason_of(r) == refusal(self@, p),
    {
        let p = PathParts::parse(path);
        assert(reads_as(path@, p@));
        self.check_parts(&p)
    }

    /// Whether the user's whitelist keeps a path, given its parts.
    pub fn keeps_parts(&self, path: &PathParts) -> (r: bool)
        ensures
            r == whitelisted(self@, path@),
    {
        for i in 0..self.whitelist.len()
            invariant
                forall|j: int| 0 <= j < i ==> !keeps(#[trigger] self@.whitelist[j], path@),
        {
            let entry = &self.whitelist[i];
            assert(self@.whitelist[i as int] == entry@);
            let hit = if has_char(chars_of(entry.text.as_str()).as_slice(), '*') {
                wildcard_match(entry.text.as_str(), path.text.as_str())
            } else {
                is_same_path(path, entry) || path_starts_with(path, entry)
            };
            if hit {
                return true;
            }
        }
        false
    }

    /// Whether the user's whitelist keeps a path: entries without `*` keep the path and its subtree,
    /// entries with `*` are matched against the full path.
    pub fn is_whitelisted(&self, path: &str) -> (r: bool)
        ensures
            exists|p: PathRow| #[trigger] reads_as(path@, p) && r == whitelisted(self@, p),
    {
        let p = PathParts::parse(path);
        assert(reads_as(path@, p@));
        self.keeps_parts(&p)
    }
}

fn any_same(path: &PathParts, list: &Vec<PathParts>) -> (r: bool)
    ensures
        r == is_one_of(path@, path_list(list@)),
{
    for i in 0..list.len()
        invariant
            forall|j: int| 0 <= j < i ==> !same_path(path@, #[trigger] path_list(list@)[j]),
    {
        assert(path_list(list@)[i as int] == list@[i as int]@);
        if is_same_path(path, &list[i]) {
            return true;
        }
    }
    false
}

fn any_tree(path: &PathParts, list: &Vec<PathParts>) -> (r: bool)
    ensures
        r == in_a_tree(path@, path_list(list@)),
{
    for i in 0..list.len()
        invariant
            forall|j: int| 0 <= j < i ==> !starts_at(path@, #[trigger] path_list(list@)[j]),
    {
        assert(path_list(list@)[i as int] == list@[i as int]@);
        if path_starts_with(path, &list[i]) {
            return true;
        }
    }
    false
}

fn any_inside(path: &PathParts, list: &Vec<PathParts>) -> (r: bool)
    ensures
        r == strictly_inside(path@, path_list(list@)),
{
    for i in 0..list.len()
        invariant
            forall|j: int|
                0 <= j < i ==> !(starts_at(path@, #[trigger] path_list(list@)[j]) && !same_path(
                    path@,
                    path_list(list@)[j],
                )),
    {
        assert(path_list(list@)[i as int] == list@[i as int]@);
        if path_starts_with(path, &list[i]) && !is_same_path(path, &list[i]) {
            return true;
        }
    }
    false
}

// ---------------------------------------------------------------------------
// Where the guard comes from
// ---------------------------------------------------------------------------

/// An environment: what each variable holds.
pub type Env = spec_fn(Seq<char>) -> Option<Seq<char>>;

/// The list with what a variable holds at its end, if it is set.
pub open spec fn with_var(list: Seq<Seq<char>>, name: Seq<char>, env: Env) -> Seq<Seq<char>> {
    match env(name) {
        Some(v) => list.push(v),
        None => list,
    }
}

/// The roots that are never deleted themselves.
pub open spec fn protected_texts(env: Env) -> Seq<Seq<char>> {
    let a = with_var(seq![], "USERPROFILE"@, env);
    let b = with_var(a, "APPDATA"@, env);
    let c = with_var(b, "LOCALAPPDATA"@, env);
    let d = with_var(c, "SystemRoot"@, env);
    let e = with_var(d, "ProgramData"@, env);
    with_var(e, "HOME"@, env)
}

/// The bases that variables name.
pub open spec fn base_texts(env: Env) -> Seq<Seq<char>> {
    let a = with_var(seq![], "USERPROFILE"@, env);
    let b = with_var(a, "APPDATA"@, env);
    let c = with_var(b, "LOCALAPPDATA"@, env);
    let d = with_var(c, "TEMP"@, env);
    with_var(d, "TMP"@, env)
}

/// The denied trees that variables name.
pub open spec fn denied_texts(env: Env) -> Seq<Seq<char>> {
    let a = with_var(seq![], "ProgramFiles"@, env);
    let b = with_var(a, "ProgramFiles(x86)"@, env);
    with_var(b, "ProgramData"@, env)
}

/// The list is `front`, and behind it the given names below the Windows directory, if there is one.
pub open spec fn ends_with_system(
    list: Seq<Seq<char>>,
    front: Seq<Seq<char>>,
    names: Seq<Seq<char>>,
    env: Env,
) -> bool {
    match env("SystemRoot"@) {
        Some(root) => {
            &&& list.len() == front.len() + names.len()
            &&& list.take(front.len() as int) == front
            &&& forall|k: int|
                0 <= k < names.len() ==> is_path_of(
                    list[front.len() + k],
                    seq![root, #[trigger] names[k]],
                )
        },
        None => list == front,
    }
}

/// The guard of an environment and a whitelist.
pub open spec fn is_guard_of(s: SafetyRow, env: Env, whitelist: Seq<Seq<char>>) -> bool {
    &&& guard_well_read(s)
    &&& path_texts(s.protected) == protected_texts(env)
    &&& ends_with_system(path_texts(s.bases), base_texts(env), seq!["Temp"@], env)
    &&& ends_with_system(
        path_texts(s.denied),
        denied_texts(env),
        seq!["System32"@, "SysWOW64"@, "WinSxS"@, "servicing"@],
        env,
    )
    &&& path_texts(s.whitelist) == whitelist
}

/// The paths of a list read as their texts say.
spec fn all_well_read(list: Seq<PathParts>) -> bool {
    forall|i: int| 0 <= i < list.len() ==> well_read((#[trigger] list[i])@)
}

/// The texts of the paths of a list.
spec fn list_texts(list: Seq<PathParts>) -> Seq<Seq<char>> {
    path_texts(path_list(list))
}

fn push_path(list: &mut Vec<PathParts>, text: &str)
    requires
        all_well_read(old(list)@),
    ensures
        all_well_read(final(list)@),
        list_texts(final(list)@) == list_texts(old(list)@).push(text@),
{
    let ghost before = list@;
    let p = PathParts::parse(text);
    list.push(p);
    assert(list_texts(list@) =~= list_texts(before).push(text@));
    assert forall|i: int| 0 <= i < list@.len() implies well_read((#[trigger] list@[i])@) by {
        if i < before.len() {
            assert(list@[i] == before[i]);
        }
    }
}

fn push_var<F: Fn(&str) -> Option<String>>(list: &mut Vec<PathParts>, name: &str, lookup: &F)
    requires
        answers_all(*lookup),
        all_well_read(old(list)@),
    ensures
        all_well_read(final(list)@),
        forall|env: Env|
            answers(*lookup, env) ==> list_texts(final(list)@) == #[trigger] with_var(
                list_texts(old(list)@),
                name@,
                env,
            ),
{
    let got = lookup(name);
    if let Some(v) = &got {
        push_path(list, v.as_str());
    }
    assert forall|env: Env| answers(*lookup, env) implies list_texts(list@) == #[trigger] with_var(
        list_texts(old(list)@),
        name@,
        env,
    ) by {
        assert(text_opt(got) == env(name@));
    }
}

fn no_paths() -> (r: Vec<PathParts>)
    ensures
        r@.len() == 0,
        all_well_read(r@),
        list_texts(r@) == Seq::<Seq<char>>::empty(),
{
    let r: Vec<PathParts> = Vec::new();
    assert(list_texts(r@) =~= Seq::<Seq<char>>::empty());
    r
}

/// Adds the given names below the Windows directory, if there is one.
fn push_system<F: Fn(&str) -> Option<String>>(
    list: &mut Vec<PathParts>,
    names: &[&str],
    lookup: &F,
)
    requires
        answers_all(*lookup),
        all_well_read(old(list)@),
    ensures
        all_well_read(final(list)@),
        forall|env: Env|
            answers(*lookup, env) ==> #[trigger] ends_with_system(
                list_texts(final(list)@),
                list_texts(old(list)@),
                str_texts(names@),
                env,
            ),
{
    let ghost front = list_texts(list@);
    let ghost all = str_texts(names@);
    let got = lookup("SystemRoot");
    if let Some(root) = &got {
        assert(list_texts(list@).take(front.len() as int) =~= front);
        for i in 0..names.len()
            invariant
                all_well_read(list@),
                all == str_texts(names@),
                list_texts(list@).len() == front.len() + i,
                list_texts(list@).take(front.len() as int) == front,
                forall|k: int|
                    0 <= k < i ==> is_path_of(
                        list_texts(list@)[front.len() + k],
                        seq![root@, #[trigger] all[k]],
                    ),
        {
            let ghost before = list_texts(list@);
            let one: [&str; 1] = [names[i]];
            let p = path_below(root.as_str(), one.as_slice());
            assert(str_texts(one@) =~= seq![all[i as int]]);
            assert(seq![root@] + seq![all[i as int]] =~= seq![root@, all[i as int]]);
            push_path(list, p.as_str());
            assert(list_texts(list@).take(front.len() as int) =~= front);
            assert forall|k: int| 0 <= k < i + 1 implies is_path_of(
                list_texts(list@)[front.len() + k],
                seq![root@, #[trigger] all[k]],
            ) by {
                if k < i {
                    assert(list_texts(list@)[front.len() + k] == before[front.len() + k]);
                }
            }
        }
    }
    assert forall|env: Env| answers(*lookup, env) implies #[trigger] ends_with_system(
        list_texts(list@),
        front,
        all,
        env,
    ) by {
        assert(text_opt(got) == env("SystemRoot"@));
    }
}

/// The paths of a list of texts.
pub fn read_paths(list: &Vec<String>) -> (r: Vec<PathParts>)
    ensures
        path_texts(path_list(r@)) == texts(list@),
        forall|i: int| 0 <= i < r@.len() ==> well_read((#[trigger] r@[i])@),
{
    let mut out = no_paths();
    let ghost all = texts(list@);
    assert(list_texts(out@) =~= all.take(0));
    for i in 0..list.len()
        invariant
            all == texts(list@),
            all_well_read(out@),
            list_texts(out@) == all.take(i as int),
    {
        push_path(&mut out, list[i].as_str());
        assert(list_texts(out@) =~= all.take(i + 1));
    }
    assert(all.take(all.len() as int) =~= all);
    out
}

impl Safety {
    /// A guard that knows only places below which deletion is allowed, and whitelist entries. It is
    /// meant for trying the guard out: nothing is protected and nothing is denied.
    pub fn for_test(allowed_bases: &Vec<String>, whitelist: &Vec<String>) -> (r: Safety)
        ensures
            r@.protected.len() == 0,
            path_texts(r@.bases) == texts(allowed_bases@),
            r@.denied.len() == 0,
            path_texts(r@.whitelist) == texts(whitelist@),
            forall|i: int| 0 <= i < r@.bases.len() ==> well_read(#[trigger] r@.bases[i]),
            forall|i: int| 0 <= i < r@.whitelist.len() ==> well_read(#[trigger] r@.whitelist[i]),
    {
        Safety::new(no_paths(), read_paths(allowed_bases), no_paths(), read_paths(whitelist))
    }

    /// The guard of the environment that `lookup` answers for and the given whitelist entries.
    pub fn load<F: Fn(&str) -> Option<String>>(lookup: &F, whitelist: &Vec<String>) -> (r: Safety)
        requires
            answers_all(*lookup),
        ensures
            forall|env: Env|
                answers(*lookup, env) ==> #[trigger] is_guard_of(r@, env, texts(whitelist@)),
    {
        let mut protected_roots = no_paths();
        push_var(&mut protected_roots, "USERPROFILE", lookup);
        push_var(&mut protected_roots, "APPDATA", lookup);
        push_var(&mut protected_roots, "LOCALAPPDATA", lookup);
        push_var(&mut protected_roots, "SystemRoot", lookup);
        push_var(&mut protected_roots, "ProgramData", lookup);
        push_var(&mut protected_roots, "HOME", lookup);

        let mut allowed_bases = no_paths();
        push_var(&mut allowed_bases, "USERPROFILE", lookup);
        push_var(&mut allowed_bases, "APPDATA", lookup);
        push_var(&mut allowed_bases, "LOCALAPPDATA", lookup);
        push_var(&mut allowed_bases, "TEMP", lookup);
        push_var(&mut allowed_bases, "TMP", lookup);
        let ghost named_bases = list_texts(allowed_bases@);
        let temp: [&str; 1] = ["Temp"];
        push_system(&mut allowed_bases, temp.as_slice(), lookup);

        let mut denied_trees = no_paths();
        push_var(&mut denied_trees, "ProgramFiles", lookup);
        push_var(&mut denied_trees, "ProgramFiles(x86)", lookup);
        push_var(&mut denied_trees, "ProgramData", lookup);
        let ghost named_trees = list_texts(denied_trees@);
        let system: [&str; 4] = ["System32", "SysWOW64", "WinSxS", "servicing"];
        push_system(&mut denied_trees, system.as_slice(), lookup);

        let kept = read_paths(whitelist);
        let r = Safety { protected_roots, allowed_bases, denied_trees, whitelist: kept };
        assert forall|env: Env| answers(*lookup, env) implies #[trigger] is_guard_of(
            r@,
            env,
            texts(whitelist@),
        ) by {
            assert(list_texts(protected_roots@) == protected_texts(env));
            assert(named_bases == base_texts(env));
            assert(named_trees == denied_texts(env));
            assert(str_texts(temp@) =~= seq!["Temp"@]);
            assert(str_texts(system@) =~= seq![
                "System32"@,
                "SysWOW64"@,
                "WinSxS"@,
                "servicing"@,
            ]);
            assert(ends_with_system(
                list_texts(allowed_bases@),
                named_bases,
                str_texts(temp@),
                env,
            ));
            assert(ends_with_system(
                list_texts(denied_trees@),
                named_trees,
                str_texts(system@),
                env,
            ));
        }
        r
    }
}

/// The pieces of the path of the whitelist file.
pub open spec fn whitelist_pieces(env: Env) -> Option<Seq<Seq<char>>> {
    match env("APPDATA"@) {
        Some(dir) => Some(seq![dir, "dustpan"@, "whitelist.txt"@]),
        None => match env("HOME"@) {
            Some(home) => Some(seq![home, ".config"@, "dustpan"@, "whitelist.txt"@]),
            None => None,
        },
    }
}

/// The text is the path of the pieces; both may be missing.
pub open spec fn is_place(text: Option<Seq<char>>, pieces: Option<Seq<Seq<char>>>) -> bool {
    match (text, pieces) {
        (Some(t), Some(p)) => is_path_of(t, p),
        (None, None) => true,
        _ => false,
    }
}

/// `%APPDATA%\dustpan\whitelist.txt` on Windows, `~/.config/dustpan/whitelist.txt` elsewhere. One
/// path or pattern per line, `#` comments, `~` and `%VAR%` expanded.
pub fn whitelist_path<F: Fn(&str) -> Option<String>>(lookup: &F) -> (r: Option<String>)
    requires
        answers_all(*lookup),
    ensures
        forall|env: Env|
            answers(*lookup, env) ==> is_place(text_opt(r), #[trigger] whitelist_pieces(env)),
{
    let appdata = lookup("APPDATA");
    if let Some(dir) = &appdata {
        let names: [&str; 2] = ["dustpan", "whitelist.txt"];
        let p = path_below(dir.as_str(), names.as_slice());
        assert(seq![dir@] + str_texts(names@) =~= seq![
            dir@,
            "dustpan"@,
            "whitelist.txt"@,
        ]);
        return Some(p);
    }
    let home = lookup("HOME");
    if let Some(h) = &home {
        let names: [&str; 3] = [".config", "dustpan", "whitelist.txt"];
        let p = path_below(h.as_str(), names.as_slice());
        assert(seq![h@] + str_texts(names@) =~= seq![
            h@,
            ".config"@,
            "dustpan"@,
            "whitelist.txt"@,
        ]);
        return Some(p);
    }
    None
}

/// What an entry of the whitelist file stands for: a leading `~` is the home directory, and
/// variables are replaced. There is none where a variable is unset.
pub open spec fn entry_text(line: Seq<char>, env: Env) -> Option<Seq<char>> {
    if has_prefix(line, "~"@) {
        let home = match env("USERPROFILE"@) {
            Some(h) => Some(h),
            None => env("HOME"@),
        };
        match home {
            Some(h) => expanded(h + line.skip(1), env),
            None => None,
        }
    } else {
        expanded(line, env)
    }
}

/// The entries of the lines of a whitelist file, blank lines and comments aside.
pub open spec fn entry_texts(lines: Seq<Seq<char>>, env: Env) -> Seq<Seq<char>>
    decreases lines.len(),
{
    if lines.len() == 0 {
        seq![]
    } else {
        let front = entry_texts(lines.drop_last(), env);
        let line = trimmed(lines.last());
        if line.len() == 0 || has_prefix(line, "#"@) {
            front
        } else {
            match entry_text(line, env) {
                Some(e) => front.push(e),
                None => front,
            }
        }
    }
}

fn expand_whitelist_entry<F: Fn(&str) -> Option<String>>(line: &[char], lookup: &F) -> (r: Option<
    String,
>)
    requires
        answers_all(*lookup),
    ensures
        forall|env: Env|
            answers(*lookup, env) ==> text_opt(r) == #[trigger] entry_text(line@, env),
{
    if starts_with(line, "~") {
        proof {
            reveal_strlit("~");
        }
        let user = lookup("USERPROFILE");
        let home = match &user {
            Some(h) => h.clone(),
            None => match lookup("HOME") {
                Some(h) => h,
                None => {
                    return None;
                },
            },
        };
        let mut all = chars_of(home.as_str());
        let rest = slice_subrange(line, 1, line.len());
        assert(rest@ =~= line@.skip(1));
        append(&mut all, rest);
        let text = string_of(all.as_slice());
        expand_vars(text.as_str(), lookup)
    } else {
        let text = string_of(line);
        expand_vars(text.as_str(), lookup)
    }
}

/// The entries of a whitelist file.
pub fn parse_whitelist<F: Fn(&str) -> Option<String>>(content: &str, lookup: &F) -> (r: Vec<String>)
    requires
        answers_all(*lookup),
    ensures
        forall|env: Env|
            answers(*lookup, env) ==> texts(r@) == #[trigger] entry_texts(
                lines_of(content@),
                env,
            ),
{
    let all = lines(chars_of(content).as_slice());
    let ghost ls = rows(all@);
    let mut out = no_texts();
    let mut i: usize = 0;
    assert(ls.take(0) =~= Seq::<Seq<char>>::empty());
    while i < all.len()
        invariant
            i <= all@.len(),
            ls == rows(all@),
            answers_all(*lookup),
            forall|env: Env|
                answers(*lookup, env) ==> texts(out@) == #[trigger] entry_texts(
                    ls.take(i as int),
                    env,
                ),
        decreases all@.len() - i,
    {
        let ghost before = texts(out@);
        assert(ls.take(i + 1).drop_last() =~= ls.take(i as int));
        assert(ls.take(i + 1).last() == all@[i as int]@);
        let line = trim(all[i].as_slice());
        if line.len() > 0 && !starts_with(line, "#") {
            let entry = expand_whitelist_entry(line, lookup);
            let ghost got = text_opt(entry);
            if let Some(e) = entry {
                push_text(&mut out, e);
            }
            assert forall|env: Env| answers(*lookup, env) implies texts(out@)
                == #[trigger] entry_texts(ls.take(i + 1), env) by {
                assert(before == entry_texts(ls.take(i as int), env));
                assert(got == entry_text(line@, env));
            }
        } else {
            assert forall|env: Env| answers(*lookup, env) implies texts(out@)
                == #[trigger] entry_texts(ls.take(i + 1), env) by {
                assert(before == entry_texts(ls.take(i as int), env));
            }
        }
        i = i + 1;
    }
    assert(ls.take(ls.len() as int) =~= ls);
    out
}

// ---------------------------------------------------------------------------
// Laws
// ---------------------------------------------------------------------------

/// A path may be deleted exactly when it is absolute, climbs nowhere, is deep enough, is no
/// protected root, is in no denied tree, and lies strictly inside an allowed base.
pub proof fn permission_means_every_rule_is_met(s: SafetyRow, p: PathRow)
    ensures
        refusal(s, p) is None <==> {
            &&& p.absolute
            &&& !has_parent(p.parts)
            &&& name_count(p.parts) >= 2
            &&& !is_one_of(p, s.protected)
            &&& !in_a_tree(p, s.denied)
            &&& strictly_inside(p, s.bases)
        },
{
}

/// Without an allowed base nothing may be deleted.
pub proof fn no_base_means_no_deletion(s: SafetyRow, p: PathRow)
    requires
        s.bases.len() == 0,
    ensures
        refusal(s, p) is Some,
{
}

/// An allowed base may not itself be deleted, unless it lies inside another base.
pub proof fn a_base_itself_is_refused(s: SafetyRow, p: PathRow)
    requires
        is_one_of(p, s.bases),
        forall|i: int|
            0 <= i < s.bases.len() && starts_at(p, #[trigger] s.bases[i]) ==> same_path(
                p,
                s.bases[i],
            ),
    ensures
        refusal(s, p) is Some,
{
}

/// A protected root, and everything in a denied tree, is refused whatever the bases are.
pub proof fn protected_places_are_refused(s: SafetyRow, p: PathRow)
    requires
        is_one_of(p, s.protected) || in_a_tree(p, s.denied),
    ensures
        refusal(s, p) is Some,
{
}

/// Everything below a path in a denied tree is refused too.
pub proof fn denied_trees_are_closed(s: SafetyRow, p: PathRow, q: PathRow)
    requires
        in_a_tree(p, s.denied),
        starts_at(q, p),
    ensures
        refusal(s, q) is Some,
{
    let i = choose|i: int| 0 <= i < s.denied.len() && starts_at(p, #[trigger] s.denied[i]);
    crate::paths::leading_is_transitive(s.denied[i], p, q);
}

/// The verdict does not look at letter case.
pub proof fn verdict_ignores_case(s: SafetyRow, p: PathRow, q: PathRow)
    requires
        same_path(p, q),
        p.absolute == q.absolute,
        p.parts.len() == q.parts.len(),
        forall|i: int| 0 <= i < p.parts.len() ==> (#[trigger] p.parts[i]).kind == q.parts[i].kind,
    ensures
        refusal(s, p) == refusal(s, q),
{
    lemma_same_kinds(p.parts, q.parts);
    assert(has_parent(p.parts) == has_parent(q.parts)) by {
        if has_parent(p.parts) {
            let i = choose|i: int|
                0 <= i < p.parts.len() && (#[trigger] p.parts[i]).kind == PartKind::ParentDir;
            assert(q.parts[i].kind == PartKind::ParentDir);
        }
        if has_parent(q.parts) {
            let i = choose|i: int|
                0 <= i < q.parts.len() && (#[trigger] q.parts[i]).kind == PartKind::ParentDir;
            assert(p.parts[i].kind == PartKind::ParentDir);
        }
    }
}

proof fn lemma_same_kinds(a: Seq<PartRow>, b: Seq<PartRow>)
    requires
        a.len() == b.len(),
        forall|i: int| 0 <= i < a.len() ==> (#[trigger] a[i]).kind == b[i].kind,
    ensures
        name_count(a) == name_count(b),
    decreases a.len(),
{
    reveal(Seq::filter);
    if a.len() > 0 {
        assert(a.last().kind == b.last().kind) by {
            assert(a[a.len() - 1].kind == b[a.len() - 1].kind);
        }
        assert forall|i: int| 0 <= i < a.drop_last().len() implies (#[trigger] a.drop_last()[i]).kind
            == b.drop_last()[i].kind by {
            assert(a[i].kind == b[i].kind);
        }
        lemma_same_kinds(a.drop_last(), b.drop_last());
    }
}

/// A plain whitelist entry keeps the path it names and everything below.
pub proof fn whitelist_entries_keep_their_subtree(
    s: SafetyRow,
    i: int,
    p: PathRow,
    q: PathRow,
)
    requires
        0 <= i < s.whitelist.len(),
        !s.whitelist[i].text.contains('*'),
        keeps(s.whitelist[i], p),
        starts_at(q, p),
    ensures
        whitelisted(s, q),
{
    let e = s.whitelist[i];
    if starts_at(p, e) {
        crate::paths::leading_is_transitive(e, p, q);
    } else {
        assert(starts_at(q, e));
    }
    assert(keeps(s.whitelist[i], q));
}

/// The parts of `p` begin with those of `base`, case aside, and there are more of them.
pub open spec fn lies_below(p: PathRow, base: PathRow) -> bool {
    &&& 0 < base.parts.len() < p.parts.len()
    &&& forall|i: int|
        0 <= i < base.parts.len() ==> folded((#[trigger] p.parts[i]).text) == folded(
            base.parts[i].text,
        )
}

/// The parts of the paths are the same, case aside.
pub open spec fn reads_alike(p: PathRow, q: PathRow) -> bool {
    &&& p.parts.len() == q.parts.len()
    &&& forall|i: int|
        0 <= i < p.parts.len() ==> folded((#[trigger] p.parts[i]).text) == folded(q.parts[i].text)
}

proof fn lemma_below(p: PathRow, q: PathRow)
    ensures
        same_path(p, q) == reads_alike(p, q),
        (starts_at(p, q) && !same_path(p, q)) == lies_below(p, q),
        starts_at(p, q) == (lies_below(p, q) || (reads_alike(p, q) && p.parts.len() > 0)),
{
    let a = crate::paths::norm(p);
    let b = crate::paths::norm(q);
    assert forall|i: int| 0 <= i < a.len() implies #[trigger] a[i] == folded(p.parts[i].text) by {}
    assert forall|i: int| 0 <= i < b.len() implies #[trigger] b[i] == folded(q.parts[i].text) by {}
    let n = b.len() as int;
    if same_path(p, q) {
        assert forall|i: int| 0 <= i < p.parts.len() implies folded((#[trigger] p.parts[i]).text)
            == folded(q.parts[i].text) by {
            assert(a[i] == b[i]);
        }
    }
    if reads_alike(p, q) {
        assert(a =~= b);
    }
    if a.len() >= n {
        if a.take(n) == b {
            assert forall|i: int| 0 <= i < q.parts.len() implies folded(
                (#[trigger] p.parts[i]).text,
            ) == folded(q.parts[i].text) by {
                assert(a.take(n)[i] == b[i]);
            }
            if p.parts.len() == q.parts.len() {
                assert(a.take(n) =~= a);
            }
        }
        if lies_below(p, q) || reads_alike(p, q) {
            assert(a.take(n) =~= b);
        }
    }
}

/// The names of variables that tell where deletion is allowed.
pub open spec fn names_a_base(name: Seq<char>) -> bool {
    ||| name == "USERPROFILE"@
    ||| name == "APPDATA"@
    ||| name == "LOCALAPPDATA"@
    ||| name == "TEMP"@
    ||| name == "TMP"@
}

/// The names of variables whose directories are never deleted themselves.
pub open spec fn names_a_root(name: Seq<char>) -> bool {
    ||| name == "USERPROFILE"@
    ||| name == "APPDATA"@
    ||| name == "LOCALAPPDATA"@
    ||| name == "SystemRoot"@
    ||| name == "ProgramData"@
    ||| name == "HOME"@
}

/// The names of variables whose trees are off limits.
pub open spec fn names_a_tree(name: Seq<char>) -> bool {
    ||| name == "ProgramFiles"@
    ||| name == "ProgramFiles(x86)"@
    ||| name == "ProgramData"@
}

/// The names below the Windows directory that are off limits.
pub open spec fn is_system_part(name: Seq<char>) -> bool {
    ||| name == "System32"@
    ||| name == "SysWOW64"@
    ||| name == "WinSxS"@
    ||| name == "servicing"@
}

/// A row of the list has that text.
pub open spec fn has_row(list: Seq<PathRow>, text: Seq<char>) -> bool {
    exists|i: int| 0 <= i < list.len() && (#[trigger] list[i]).text == text
}

/// A row of the list is that directory below the Windows directory.
pub open spec fn has_system_row(list: Seq<PathRow>, root: Seq<char>, name: Seq<char>) -> bool {
    exists|i: int| 0 <= i < list.len() && is_path_of((#[trigger] list[i]).text, seq![root, name])
}

/// Some variable with such a name holds the text.
pub open spec fn held_by(env: Env, names: spec_fn(Seq<char>) -> bool, text: Seq<char>) -> bool {
    exists|name: Seq<char>| names(name) && #[trigger] env(name) == Some(text)
}

/// The text is such a directory below the Windows directory.
pub open spec fn below_system(env: Env, names: spec_fn(Seq<char>) -> bool, text: Seq<char>) -> bool {
    exists|name: Seq<char>|
        #[trigger] names(name) && env("SystemRoot"@) is Some && is_path_of(
            text,
            seq![env("SystemRoot"@)->0, name],
        )
}

pub proof fn lemma_with_var(list: Seq<Seq<char>>, name: Seq<char>, env: Env)
    ensures
        forall|t: Seq<char>|
            #[trigger] with_var(list, name, env).contains(t) <==> list.contains(t) || env(name)
                == Some(t),
{
    let r = with_var(list, name, env);
    assert forall|t: Seq<char>| #[trigger] r.contains(t) <==> list.contains(t) || env(name)
        == Some(t) by {
        if r.contains(t) {
            let i = choose|i: int| 0 <= i < r.len() && r[i] == t;
            if i < list.len() {
                assert(list[i] == t);
            }
        }
        if list.contains(t) {
            let i = choose|i: int| 0 <= i < list.len() && list[i] == t;
            assert(r[i] == t);
        }
        if env(name) == Some(t) {
            assert(r[list.len() as int] == t);
        }
    }
}

proof fn lemma_texts_rows(list: Seq<PathRow>, t: Seq<char>)
    ensures
        has_row(list, t) == path_texts(list).contains(t),
{
    let all = path_texts(list);
    if has_row(list, t) {
        let i = choose|i: int| 0 <= i < list.len() && (#[trigger] list[i]).text == t;
        assert(all[i] == t);
    }
    if all.contains(t) {
        let i = choose|i: int| 0 <= i < all.len() && all[i] == t;
        assert(list[i].text == t);
    }
}

/// The guard of an environment allows deletion below exactly these places: what `USERPROFILE`,
/// `APPDATA`, `LOCALAPPDATA`, `TEMP` and `TMP` hold, and `Temp` in the Windows directory.
pub proof fn bases_are_where_the_user_keeps_caches(s: SafetyRow, env: Env, whitelist: Seq<Seq<char>>)
    requires
        is_guard_of(s, env, whitelist),
    ensures
        forall|name: Seq<char>|
            names_a_base(name) ==> (#[trigger] env(name) matches Some(v) ==> has_row(s.bases, v)),
        env("SystemRoot"@) matches Some(root) ==> has_system_row(s.bases, root, "Temp"@),
        forall|i: int|
            0 <= i < s.bases.len() ==> held_by(
                env,
                |n: Seq<char>| names_a_base(n),
                (#[trigger] s.bases[i]).text,
            ) || below_system(env, |n: Seq<char>| n == "Temp"@, s.bases[i].text),
{
    let front = base_texts(env);
    let all = path_texts(s.bases);
    let a = with_var(seq![], "USERPROFILE"@, env);
    let b = with_var(a, "APPDATA"@, env);
    let c = with_var(b, "LOCALAPPDATA"@, env);
    let d = with_var(c, "TEMP"@, env);
    lemma_with_var(seq![], "USERPROFILE"@, env);
    lemma_with_var(a, "APPDATA"@, env);
    lemma_with_var(b, "LOCALAPPDATA"@, env);
    lemma_with_var(c, "TEMP"@, env);
    lemma_with_var(d, "TMP"@, env);
    assert(!Seq::<Seq<char>>::empty().contains("TMP"@));
    assert forall|name: Seq<char>| names_a_base(name) implies (#[trigger] env(name) matches Some(
        v,
    ) ==> has_row(s.bases, v)) by {
        if let Some(v) = env(name) {
            assert(front.contains(v));
            let i = choose|i: int| 0 <= i < front.len() && front[i] == v;
            assert(all.take(front.len() as int)[i] == v);
            assert(s.bases[i].text == v);
        }
    }
    if let Some(root) = env("SystemRoot"@) {
        let k = front.len() as int;
        assert(is_path_of(all[k + 0], seq![root, seq!["Temp"@][0]]));
        assert(is_path_of(s.bases[k].text, seq![root, "Temp"@]));
    }
    assert forall|i: int| 0 <= i < s.bases.len() implies held_by(
        env,
        |n: Seq<char>| names_a_base(n),
        (#[trigger] s.bases[i]).text,
    ) || below_system(env, |n: Seq<char>| n == "Temp"@, s.bases[i].text) by {
        let t = s.bases[i].text;
        assert(all[i] == t);
        if i < front.len() {
            assert(all.take(front.len() as int)[i] == front[i]);
            assert(front.contains(t));
            lemma_held(env, t);
        } else {
            let names = |n: Seq<char>| n == "Temp"@;
            let root = env("SystemRoot"@)->0;
            assert(is_path_of(all[front.len() as int + 0], seq![root, seq!["Temp"@][0]]));
            assert(names("Temp"@));
        }
    }
}

proof fn lemma_held(env: Env, t: Seq<char>)
    requires
        base_texts(env).contains(t),
    ensures
        held_by(env, |n: Seq<char>| names_a_base(n), t),
{
    let a = with_var(seq![], "USERPROFILE"@, env);
    let b = with_var(a, "APPDATA"@, env);
    let c = with_var(b, "LOCALAPPDATA"@, env);
    let d = with_var(c, "TEMP"@, env);
    lemma_with_var(seq![], "USERPROFILE"@, env);
    lemma_with_var(a, "APPDATA"@, env);
    lemma_with_var(b, "LOCALAPPDATA"@, env);
    lemma_with_var(c, "TEMP"@, env);
    lemma_with_var(d, "TMP"@, env);
    let names = |n: Seq<char>| names_a_base(n);
    assert(names("USERPROFILE"@) && names("APPDATA"@) && names("LOCALAPPDATA"@) && names("TEMP"@)
        && names("TMP"@));
    assert(env("USERPROFILE"@) == Some(t) || env("APPDATA"@) == Some(t) || env("LOCALAPPDATA"@)
        == Some(t) || env("TEMP"@) == Some(t) || env("TMP"@) == Some(t));
}

/// The guard of an environment protects exactly these roots: what `USERPROFILE`, `APPDATA`,
/// `LOCALAPPDATA`, `SystemRoot`, `ProgramData` and `HOME` hold.
pub proof fn roots_are_the_places_of_user_and_system(
    s: SafetyRow,
    env: Env,
    whitelist: Seq<Seq<char>>,
)
    requires
        is_guard_of(s, env, whitelist),
    ensures
        forall|name: Seq<char>|
            names_a_root(name) ==> (#[trigger] env(name) matches Some(v) ==> has_row(
                s.protected,
                v,
            )),
        forall|i: int|
            0 <= i < s.protected.len() ==> held_by(
                env,
                |n: Seq<char>| names_a_root(n),
                (#[trigger] s.protected[i]).text,
            ),
{
    let a = with_var(seq![], "USERPROFILE"@, env);
    let b = with_var(a, "APPDATA"@, env);
    let c = with_var(b, "LOCALAPPDATA"@, env);
    let d = with_var(c, "SystemRoot"@, env);
    let e = with_var(d, "ProgramData"@, env);
    lemma_with_var(seq![], "USERPROFILE"@, env);
    lemma_with_var(a, "APPDATA"@, env);
    lemma_with_var(b, "LOCALAPPDATA"@, env);
    lemma_with_var(c, "SystemRoot"@, env);
    lemma_with_var(d, "ProgramData"@, env);
    lemma_with_var(e, "HOME"@, env);
    let all = protected_texts(env);
    let names = |n: Seq<char>| names_a_root(n);
    assert(names("USERPROFILE"@) && names("APPDATA"@) && names("LOCALAPPDATA"@) && names(
        "SystemRoot"@,
    ) && names("ProgramData"@) && names("HOME"@));
    assert forall|name: Seq<char>| names_a_root(name) implies (#[trigger] env(name) matches Some(
        v,
    ) ==> has_row(s.protected, v)) by {
        if let Some(v) = env(name) {
            assert(all.contains(v));
            lemma_texts_rows(s.protected, v);
        }
    }
    assert forall|i: int| 0 <= i < s.protected.len() implies held_by(
        env,
        names,
        (#[trigger] s.protected[i]).text,
    ) by {
        let t = s.protected[i].text;
        lemma_texts_rows(s.protected, t);
        assert(all.contains(t));
        assert(!Seq::<Seq<char>>::empty().contains(t));
        assert(env("USERPROFILE"@) == Some(t) || env("APPDATA"@) == Some(t) || env("LOCALAPPDATA"@)
            == Some(t) || env("SystemRoot"@) == Some(t) || env("ProgramData"@) == Some(t) || env(
            "HOME"@,
        ) == Some(t));
    }
}

/// The guard of an environment denies exactly these trees: what `ProgramFiles`, `ProgramFiles(x86)` and
/// `ProgramData` hold, and `System32`, `SysWOW64`, `WinSxS` and `servicing` in the Windows directory.
pub proof fn denied_trees_are_those_of_the_system(
    s: SafetyRow,
    env: Env,
    whitelist: Seq<Seq<char>>,
)
    requires
        is_guard_of(s, env, whitelist),
    ensures
        forall|name: Seq<char>|
            names_a_tree(name) ==> (#[trigger] env(name) matches Some(v) ==> has_row(s.denied, v)),
        env("SystemRoot"@) matches Some(root) ==> forall|name: Seq<char>| #[trigger]
            is_system_part(name) ==> has_system_row(s.denied, root, name),
        forall|i: int|
            0 <= i < s.denied.len() ==> held_by(
                env,
                |n: Seq<char>| names_a_tree(n),
                (#[trigger] s.denied[i]).text,
            ) || below_system(env, |n: Seq<char>| is_system_part(n), s.denied[i].text),
{
    let front = denied_texts(env);
    let all = path_texts(s.denied);
    let parts = seq!["System32"@, "SysWOW64"@, "WinSxS"@, "servicing"@];
    let a = with_var(seq![], "ProgramFiles"@, env);
    let b = with_var(a, "ProgramFiles(x86)"@, env);
    lemma_with_var(seq![], "ProgramFiles"@, env);
    lemma_with_var(a, "ProgramFiles(x86)"@, env);
    lemma_with_var(b, "ProgramData"@, env);
    let n = front.len() as int;
    assert forall|name: Seq<char>| names_a_tree(name) implies (#[trigger] env(name) matches Some(
        v,
    ) ==> has_row(s.denied, v)) by {
        if let Some(v) = env(name) {
            assert(front.contains(v));
            let i = choose|i: int| 0 <= i < front.len() && front[i] == v;
            assert(all.take(n)[i] == v);
            assert(s.denied[i].text == v);
        }
    }
    if let Some(root) = env("SystemRoot"@) {
        assert forall|name: Seq<char>| #[trigger] is_system_part(name) implies has_system_row(
            s.denied,
            root,
            name,
        ) by {
            let k: int = if name == "System32"@ {
                0
            } else if name == "SysWOW64"@ {
                1
            } else if name == "WinSxS"@ {
                2
            } else {
                3
            };
            assert(parts[k] == name);
            assert(is_path_of(all[n + k], seq![root, parts[k]]));
            assert(is_path_of(s.denied[n + k].text, seq![root, name]));
        }
    }
    assert forall|i: int| 0 <= i < s.denied.len() implies held_by(
        env,
        |n: Seq<char>| names_a_tree(n),
        (#[trigger] s.denied[i]).text,
    ) || below_system(env, |n: Seq<char>| is_system_part(n), s.denied[i].text) by {
        let t = s.denied[i].text;
        assert(all[i] == t);
        if i < n {
            assert(all.take(n)[i] == front[i]);
            assert(front.contains(t));
            assert(!Seq::<Seq<char>>::empty().contains(t));
            let names = |n: Seq<char>| names_a_tree(n);
            assert(names("ProgramFiles"@) && names("ProgramFiles(x86)"@) && names("ProgramData"@));
            assert(env("ProgramFiles"@) == Some(t) || env("ProgramFiles(x86)"@) == Some(t) || env(
                "ProgramData"@,
            ) == Some(t));
        } else {
            let names = |n: Seq<char>| is_system_part(n);
            let root = env("SystemRoot"@)->0;
            let k = i - n;
            assert(is_path_of(all[n + k], seq![root, parts[k]]));
            assert(names(parts[k]));
        }
    }
}

/// What a user keeps below their own places may be deleted. In the guard of an environment, an absolute
/// path that does not climb and has two names is permitted where it lies strictly below what
/// `USERPROFILE`, `APPDATA`, `LOCALAPPDATA`, `TEMP` or `TMP` holds, is none of the protected roots, and
/// is neither a denied tree nor in one.
pub proof fn caches_of_the_user_may_be_deleted(
    s: SafetyRow,
    env: Env,
    whitelist: Seq<Seq<char>>,
    name: Seq<char>,
    p: PathRow,
    i: int,
    j: int,
)
    requires
        is_guard_of(s, env, whitelist),
        names_a_base(name),
        env(name) is Some,
        p.absolute,
        forall|k: int| 0 <= k < p.parts.len() ==> (#[trigger] p.parts[k]).kind != PartKind::ParentDir,
        0 <= i < j < p.parts.len(),
        p.parts[i].kind == PartKind::Normal,
        p.parts[j].kind == PartKind::Normal,
        forall|b: PathRow| #[trigger] reads_as(env(name)->0, b) ==> lies_below(p, b),
        forall|n: Seq<char>, q: PathRow|
            names_a_root(n) && env(n) is Some && #[trigger] reads_as(#[trigger] env(n)->0, q)
                ==> !reads_alike(p, q),
        forall|n: Seq<char>, q: PathRow|
            names_a_tree(n) && env(n) is Some && #[trigger] reads_as(#[trigger] env(n)->0, q)
                ==> !reads_alike(p, q) && !lies_below(p, q),
        forall|n: Seq<char>, t: Seq<char>, q: PathRow|
            #[trigger] is_system_part(n) && env("SystemRoot"@) is Some && is_path_of(
                t,
                seq![env("SystemRoot"@)->0, n],
            ) && #[trigger] reads_as(t, q) ==> !reads_alike(p, q) && !lies_below(p, q),
    ensures
        refusal(s, p) is None,
{
    bases_are_where_the_user_keeps_caches(s, env, whitelist);
    roots_are_the_places_of_user_and_system(s, env, whitelist);
    denied_trees_are_those_of_the_system(s, env, whitelist);
    lemma_two_names(p.parts, i, j);
    assert(!is_one_of(p, s.protected)) by {
        assert forall|k: int| 0 <= k < s.protected.len() implies !same_path(
            p,
            #[trigger] s.protected[k],
        ) by {
            let q = s.protected[k];
            let names = |n: Seq<char>| names_a_root(n);
            assert(held_by(env, names, q.text));
            let n = choose|n: Seq<char>| names(n) && #[trigger] env(n) == Some(q.text);
            assert(reads_as(env(n)->0, q));
            lemma_below(p, q);
        }
    }
    assert(!in_a_tree(p, s.denied)) by {
        assert forall|k: int| 0 <= k < s.denied.len() implies !starts_at(p, #[trigger] s.denied[k]) by {
            let q = s.denied[k];
            lemma_below(p, q);
            let names = |n: Seq<char>| names_a_tree(n);
            let parts = |n: Seq<char>| is_system_part(n);
            if held_by(env, names, q.text) {
                let n = choose|n: Seq<char>| names(n) && #[trigger] env(n) == Some(q.text);
                assert(reads_as(env(n)->0, q));
            } else {
                assert(below_system(env, parts, q.text));
                let n = choose|n: Seq<char>|
                    #[trigger] parts(n) && env("SystemRoot"@) is Some && is_path_of(
                        q.text,
                        seq![env("SystemRoot"@)->0, n],
                    );
                assert(is_system_part(n));
                assert(reads_as(q.text, q));
            }
        }
    }
    let v = env(name)->0;
    assert(has_row(s.bases, v));
    let k = choose|k: int| 0 <= k < s.bases.len() && (#[trigger] s.bases[k]).text == v;
    assert(reads_as(v, s.bases[k]));
    lemma_below(p, s.bases[k]);
    assert(strictly_inside(p, s.bases));
}

proof fn lemma_two_names(parts: Seq<PartRow>, i: int, j: int)
    requires
        0 <= i < j < parts.len(),
        parts[i].kind == PartKind::Normal,
        parts[j].kind == PartKind::Normal,
    ensures
        name_count(parts) >= 2,
    decreases parts.len(),
{
    reveal(Seq::filter);
    let normal = |p: PartRow| p.kind == PartKind::Normal;
    let front = parts.drop_last();
    if j < parts.len() - 1 {
        lemma_two_names(front, i, j);
    } else {
        lemma_one_name(front, i);
        assert(front.filter(normal).len() >= 1);
    }
}

proof fn lemma_one_name(parts: Seq<PartRow>, i: int)
    requires
        0 <= i < parts.len(),
        parts[i].kind == PartKind::Normal,
    ensures
        name_count(parts) >= 1,
    decreases parts.len(),
{
    reveal(Seq::filter);
    if i < parts.len() - 1 {
        lemma_one_name(parts.drop_last(), i);
    }
}

/// What may be deleted lies strictly below a place of the user's or `Temp` of Windows, and is no
/// protected root and in no denied tree, as the guard reads them; it is absolute, does not climb, and
/// has two names.
pub proof fn nothing_else_may_be_deleted(
    s: SafetyRow,
    env: Env,
    whitelist: Seq<Seq<char>>,
    p: PathRow,
)
    requires
        is_guard_of(s, env, whitelist),
        refusal(s, p) is None,
    ensures
        p.absolute,
        forall|k: int| 0 <= k < p.parts.len() ==> (#[trigger] p.parts[k]).kind != PartKind::ParentDir,
        exists|i: int, j: int|
            0 <= i < j < p.parts.len() && (#[trigger] p.parts[i]).kind == PartKind::Normal
                && (#[trigger] p.parts[j]).kind == PartKind::Normal,
        exists|b: PathRow|
            #[trigger] lies_below(p, b) && well_read(b) && (held_by(
                env,
                |n: Seq<char>| names_a_base(n),
                b.text,
            ) || below_system(env, |n: Seq<char>| n == "Temp"@, b.text)),
        forall|n: Seq<char>|
            names_a_root(n) && #[trigger] env(n) is Some ==> exists|q: PathRow| #[trigger]
                reads_as(env(n)->0, q) && !reads_alike(p, q),
        forall|n: Seq<char>|
            names_a_tree(n) && #[trigger] env(n) is Some ==> exists|q: PathRow| #[trigger]
                reads_as(env(n)->0, q) && !reads_alike(p, q) && !lies_below(p, q),
{
    bases_are_where_the_user_keeps_caches(s, env, whitelist);
    roots_are_the_places_of_user_and_system(s, env, whitelist);
    denied_trees_are_those_of_the_system(s, env, whitelist);
    lemma_names_found(p.parts);
    let k = choose|k: int|
        0 <= k < s.bases.len() && starts_at(p, #[trigger] s.bases[k]) && !same_path(p, s.bases[k]);
    lemma_below(p, s.bases[k]);
    assert(lies_below(p, s.bases[k]) && well_read(s.bases[k]));
    assert forall|n: Seq<char>| names_a_root(n) && #[trigger] env(n) is Some implies exists|
        q: PathRow,
    | #[trigger]
        reads_as(env(n)->0, q) && !reads_alike(p, q) by {
        assert(has_row(s.protected, env(n)->0));
        let i = choose|i: int| 0 <= i < s.protected.len() && (#[trigger] s.protected[i]).text == env(n)->0;
        lemma_below(p, s.protected[i]);
        assert(reads_as(env(n)->0, s.protected[i]));
    }
    assert forall|n: Seq<char>| names_a_tree(n) && #[trigger] env(n) is Some implies exists|
        q: PathRow,
    | #[trigger]
        reads_as(env(n)->0, q) && !reads_alike(p, q) && !lies_below(p, q) by {
        assert(has_row(s.denied, env(n)->0));
        let i = choose|i: int| 0 <= i < s.denied.len() && (#[trigger] s.denied[i]).text == env(n)->0;
        lemma_below(p, s.denied[i]);
        assert(reads_as(env(n)->0, s.denied[i]));
    }
}

proof fn lemma_names_found(parts: Seq<PartRow>)
    ensures
        name_count(parts) >= 1 ==> exists|i: int|
            0 <= i < parts.len() && (#[trigger] parts[i]).kind == PartKind::Normal,
        name_count(parts) >= 2 ==> exists|i: int, j: int|
            0 <= i < j < parts.len() && (#[trigger] parts[i]).kind == PartKind::Normal
                && (#[trigger] parts[j]).kind == PartKind::Normal,
    decreases parts.len(),
{
    reveal(Seq::filter);
    if parts.len() > 0 {
        let front = parts.drop_last();
        lemma_names_found(front);
        let last = parts.len() - 1;
        if name_count(front) >= 1 {
            let i = choose|i: int| 0 <= i < front.len() && (#[trigger] front[i]).kind == PartKind::Normal;
            assert(parts[i].kind == PartKind::Normal);
        }
        if name_count(front) >= 2 {
            let (i, j) = choose|i: int, j: int|
                0 <= i < j < front.len() && (#[trigger] front[i]).kind == PartKind::Normal
                    && (#[trigger] front[j]).kind == PartKind::Normal;
            assert(parts[i].kind == PartKind::Normal && parts[j].kind == PartKind::Normal);
        }
        if name_count(parts) > name_count(front) {
            assert(parts[last].kind == PartKind::Normal);
        }
    }
}

/// The template begins with the variable, and a separator follows, or nothing.
pub open spec fn begins_with_variable(t: Seq<char>, name: Seq<char>) -> bool {
    let n = name.len() as int + 2;
    &&& t.len() >= n
    &&& t.take(n) =~= seq!['%'] + name + seq!['%']
    &&& t.len() > n ==> t[n] == '\\'
}

/// The row of the catalog lies where one of the places of the guard is.
pub open spec fn kept_within(t: Seq<char>, name: Seq<char>) -> bool {
    &&& begins_with_variable(t, name)
    &&& names_a_base(name) || t == seq!['%'] + "SystemRoot"@ + seq!['%'] + seq!['\\'] + "Temp"@
}

/// Every template of the catalog begins with a variable that names an allowed base, but for `Temp` in
/// the Windows directory.
proof fn lemma_catalog_variables(k: int)
    requires
        0 <= k < crate::targets::catalog().len(),
    ensures
        exists|name: Seq<char>| #[trigger] kept_within(crate::targets::catalog()[k].template, name),
{
    let t = crate::targets::catalog()[k].template;
    assert(crate::targets::catalog().len() == 39);
    reveal_strlit("LOCALAPPDATA");
    reveal_strlit("APPDATA");
    reveal_strlit("USERPROFILE");
    reveal_strlit("TEMP");
    reveal_strlit("SystemRoot");
    reveal_strlit("Temp");
    if k == 0 {
        reveal_strlit("%TEMP%");
        assert(begins_with_variable(t, "TEMP"@));
    } else if k == 1 {
        reveal_strlit("%SystemRoot%\\Temp");
        assert(begins_with_variable(t, "SystemRoot"@));
        assert(t =~= seq!['%'] + "SystemRoot"@ + seq!['%'] + seq!['\\'] + "Temp"@);
    } else if k == 2 {
        reveal_strlit("%LOCALAPPDATA%\\Microsoft\\Windows\\Explorer\\thumbcache_*.db");
        assert(begins_with_variable(t, "LOCALAPPDATA"@));
    } else if k == 3 {
        reveal_strlit("%LOCALAPPDATA%\\Microsoft\\Windows\\Explorer\\iconcache_*.db");
        assert(begins_with_variable(t, "LOCALAPPDATA"@));
    } else if k == 4 {
        reveal_strlit("%LOCALAPPDATA%\\Microsoft\\Windows\\INetCache");
        assert(begins_with_variable(t, "LOCALAPPDATA"@));
    } else if k == 5 {
        reveal_strlit("%LOCALAPPDATA%\\CrashDumps");
        assert(begins_with_variable(t, "LOCALAPPDATA"@));
    } else if k == 6 {
        reveal_strlit("%LOCALAPPDATA%\\Microsoft\\Windows\\WER\\ReportArchive");
        assert(begins_with_variable(t, "LOCALAPPDATA"@));
    } else if k == 7 {
        reveal_strlit("%LOCALAPPDATA%\\Microsoft\\Windows\\WER\\ReportQueue");
        assert(begins_with_variable(t, "LOCALAPPDATA"@));
    } else if k == 8 {
        reveal_strlit("%LOCALAPPDATA%\\D3DSCache");
        assert(begins_with_variable(t, "LOCALAPPDATA"@));
    } else if k == 9 {
        reveal_strlit("%LOCALAPPDATA%\\NVIDIA\\DXCache");
        assert(begins_with_variable(t, "LOCALAPPDATA"@));
    } else if k == 10 {
        reveal_strlit("%LOCALAPPDATA%\\NVIDIA\\GLCache");
        assert(begins_with_variable(t, "LOCALAPPDATA"@));
    } else if k == 11 {
        reveal_strlit("%LOCALAPPDATA%\\AMD\\DxCache");
        assert(begins_with_variable(t, "LOCALAPPDATA"@));
    } else if k == 12 {
        reveal_strlit("%LOCALAPPDATA%\\Google\\Chrome\\User Data\\*\\Cache");
        assert(begins_with_variable(t, "LOCALAPPDATA"@));
    } else if k == 13 {
        reveal_strlit("%LOCALAPPDATA%\\Google\\Chrome\\User Data\\*\\Code Cache");
        assert(begins_with_variable(t, "LOCALAPPDATA"@));
    } else if k == 14 {
        reveal_strlit("%LOCALAPPDATA%\\Google\\Chrome\\User Data\\*\\GPUCache");
        assert(begins_with_variable(t, "LOCALAPPDATA"@));
    } else if k == 15 {
        reveal_strlit("%LOCALAPPDATA%\\Microsoft\\Edge\\User Data\\*\\Cache");
        assert(begins_with_variable(t, "LOCALAPPDATA"@));
    } else if k == 16 {
        reveal_strlit("%LOCALAPPDATA%\\Microsoft\\Edge\\User Data\\*\\Code Cache");
        assert(begins_with_variable(t, "LOCALAPPDATA"@));
    } else if k == 17 {
        reveal_strlit("%LOCALAPPDATA%\\Microsoft\\Edge\\User Data\\*\\GPUCache");
        assert(begins_with_variable(t, "LOCALAPPDATA"@));
    } else if k == 18 {
        reveal_strlit("%LOCALAPPDATA%\\Mozilla\\Firefox\\Profiles\\*\\cache2");
        assert(begins_with_variable(t, "LOCALAPPDATA"@));
    } else if k == 19 {
        reveal_strlit("%LOCALAPPDATA%\\npm-cache");
        assert(begins_with_variable(t, "LOCALAPPDATA"@));
    } else if k == 20 {
        reveal_strlit("%LOCALAPPDATA%\\pnpm-cache");
        assert(begins_with_variable(t, "LOCALAPPDATA"@));
    } else if k == 21 {
        reveal_strlit("%LOCALAPPDATA%\\Yarn\\Cache");
        assert(begins_with_variable(t, "LOCALAPPDATA"@));
    } else if k == 22 {
        reveal_strlit("%LOCALAPPDATA%\\pip\\cache");
        assert(begins_with_variable(t, "LOCALAPPDATA"@));
    } else if k == 23 {
        reveal_strlit("%LOCALAPPDATA%\\uv\\cache");
        assert(begins_with_variable(t, "LOCALAPPDATA"@));
    } else if k == 24 {
        reveal_strlit("%USERPROFILE%\\.cargo\\registry\\cache");
        assert(begins_with_variable(t, "USERPROFILE"@));
    } else if k == 25 {
        reveal_strlit("%LOCALAPPDATA%\\go-build");
        assert(begins_with_variable(t, "LOCALAPPDATA"@));
    } else if k == 26 {
        reveal_strlit("%LOCALAPPDATA%\\NuGet\\v3-cache");
        assert(begins_with_variable(t, "LOCALAPPDATA"@));
    } else if k == 27 {
        reveal_strlit("%APPDATA%\\Code\\Cache");
        assert(begins_with_variable(t, "APPDATA"@));
    } else if k == 28 {
        reveal_strlit("%APPDATA%\\Code\\CachedData");
        assert(begins_with_variable(t, "APPDATA"@));
    } else if k == 29 {
        reveal_strlit("%APPDATA%\\Code\\Code Cache");
        assert(begins_with_variable(t, "APPDATA"@));
    } else if k == 30 {
        reveal_strlit("%APPDATA%\\Code\\GPUCache");
        assert(begins_with_variable(t, "APPDATA"@));
    } else if k == 31 {
        reveal_strlit("%LOCALAPPDATA%\\JetBrains\\*\\caches");
        assert(begins_with_variable(t, "LOCALAPPDATA"@));
    } else if k == 32 {
        reveal_strlit("%APPDATA%\\discord\\Cache");
        assert(begins_with_variable(t, "APPDATA"@));
    } else if k == 33 {
        reveal_strlit("%APPDATA%\\discord\\Code Cache");
        assert(begins_with_variable(t, "APPDATA"@));
    } else if k == 34 {
        reveal_strlit("%APPDATA%\\discord\\GPUCache");
        assert(begins_with_variable(t, "APPDATA"@));
    } else if k == 35 {
        reveal_strlit("%APPDATA%\\Slack\\Cache");
        assert(begins_with_variable(t, "APPDATA"@));
    } else if k == 36 {
        reveal_strlit("%APPDATA%\\Slack\\GPUCache");
        assert(begins_with_variable(t, "APPDATA"@));
    } else if k == 37 {
        reveal_strlit("%APPDATA%\\Microsoft\\Teams\\Cache");
        assert(begins_with_variable(t, "APPDATA"@));
    } else if k == 38 {
        reveal_strlit("%LOCALAPPDATA%\\Spotify\\Storage");
        assert(begins_with_variable(t, "LOCALAPPDATA"@));
    }
    assert(kept_within(t, "LOCALAPPDATA"@) || kept_within(t, "APPDATA"@) || kept_within(
        t,
        "USERPROFILE"@,
    ) || kept_within(t, "TEMP"@) || kept_within(t, "SystemRoot"@));
}

/// What the catalog names can be cleaned: every template that an environment resolves leads to a base of
/// the guard of that environment, or to a place behind it. The text it expands to is that of the base,
/// alone or with a separator behind it; for the temporary files of Windows the base is `Temp` in the
/// Windows directory.
pub proof fn the_catalog_stays_within_the_bases(
    k: int,
    s: SafetyRow,
    env: Env,
    whitelist: Seq<Seq<char>>,
)
    requires
        0 <= k < crate::targets::catalog().len(),
        is_guard_of(s, env, whitelist),
        expanded(crate::targets::catalog()[k].template, env) is Some,
    ensures
        ({
            let e = expanded(crate::targets::catalog()[k].template, env)->0;
            ||| exists|i: int|
                0 <= i < s.bases.len() && is_at_or_behind(e, (#[trigger] s.bases[i]).text)
            ||| {
                &&& env("SystemRoot"@) is Some
                &&& e == env("SystemRoot"@)->0 + seq!['\\'] + "Temp"@
                &&& has_system_row(s.bases, env("SystemRoot"@)->0, "Temp"@)
            }
        }),
{
    let t = crate::targets::catalog()[k].template;
    lemma_catalog_variables(k);
    bases_are_where_the_user_keeps_caches(s, env, whitelist);
    let name = choose|name: Seq<char>| #[trigger] kept_within(t, name);
    let n = name.len() as int + 2;
    let way = t.skip(n);
    if names_a_base(name) {
        lemma_no_percent(name);
        assert(t =~= seq!['%'] + name + seq!['%'] + way);
        crate::targets::variables_become_their_values(name, way, env);
        let v = env(name)->0;
        assert(has_row(s.bases, v));
        let i = choose|i: int| 0 <= i < s.bases.len() && (#[trigger] s.bases[i]).text == v;
        if way.len() > 0 {
            assert(way[0] == '\\');
            crate::targets::plain_fronts_stay(way, env);
        } else {
            assert(way =~= Seq::<char>::empty());
            crate::targets::plain_fronts_stay(way, env);
        }
        let e = expanded(t, env)->0;
        assert(e.take(v.len() as int) =~= v);
        assert(is_at_or_behind(e, s.bases[i].text));
    } else {
        lemma_no_percent("SystemRoot"@);
        let rest = seq!['\\'] + "Temp"@;
        assert(t =~= seq!['%'] + "SystemRoot"@ + seq!['%'] + rest);
        crate::targets::variables_become_their_values("SystemRoot"@, rest, env);
        reveal_strlit("Temp");
        assert(!rest.contains('%'));
        crate::targets::plain_fronts_stay(rest, env);
        let root = env("SystemRoot"@)->0;
        assert(root + rest =~= root + seq!['\\'] + "Temp"@);
    }
}

/// The text is the other one, or goes on behind it with a separator.
pub open spec fn is_at_or_behind(text: Seq<char>, base: Seq<char>) -> bool {
    &&& text.len() >= base.len()
    &&& text.take(base.len() as int) == base
    &&& text.len() > base.len() ==> text[base.len() as int] == '\\'
}

proof fn lemma_no_percent(name: Seq<char>)
    requires
        names_a_base(name) || name == "SystemRoot"@,
    ensures
        !name.contains('%'),
{
    reveal_strlit("LOCALAPPDATA");
    reveal_strlit("APPDATA");
    reveal_strlit("USERPROFILE");
    reveal_strlit("TEMP");
    reveal_strlit("TMP");
    reveal_strlit("SystemRoot");
}

/// What the user lists is kept: a path that is listed, or lies below one that is, is whitelisted, however
/// the platform reads them.
pub proof fn listed_paths_are_kept(
    s: SafetyRow,
    env: Env,
    whitelist: Seq<Seq<char>>,
    k: int,
    p: PathRow,
)
    requires
        is_guard_of(s, env, whitelist),
        0 <= k < whitelist.len(),
        !whitelist[k].contains('*'),
        forall|q: PathRow| #[trigger]
            reads_as(whitelist[k], q) ==> reads_alike(p, q) || lies_below(p, q),
    ensures
        whitelisted(s, p),
{
    assert(path_texts(s.whitelist)[k] == whitelist[k]);
    let q = s.whitelist[k];
    assert(reads_as(whitelist[k], q));
    lemma_below(p, q);
    assert(keeps(s.whitelist[k], p));
}

/// A listed pattern with one star keeps every path whose text begins and ends as the pattern does, case
/// aside.
pub proof fn listed_patterns_are_kept(
    s: SafetyRow,
    env: Env,
    whitelist: Seq<Seq<char>>,
    k: int,
    front: Seq<char>,
    back: Seq<char>,
    p: PathRow,
)
    requires
        is_guard_of(s, env, whitelist),
        0 <= k < whitelist.len(),
        whitelist[k] == front + seq!['*'] + back,
        crate::text::all_ascii(front),
        crate::text::all_ascii(back),
        !front.contains('*'),
        !back.contains('*'),
        crate::targets::begins_and_ends(p.text, front, back),
    ensures
        whitelisted(s, p),
{
    assert(path_texts(s.whitelist)[k] == whitelist[k]);
    let entry = whitelist[k];
    assert(entry[front.len() as int] == '*');
    assert(entry.contains('*'));
    crate::targets::one_star_in_any_case(front, back, p.text);
    assert(keeps(s.whitelist[k], p));
}

/// The user's directory: what `USERPROFILE` holds, or else `HOME`.
pub open spec fn home_of(env: Env) -> Option<Seq<char>> {
    if env("USERPROFILE"@) is Some {
        env("USERPROFILE"@)
    } else {
        env("HOME"@)
    }
}

/// Every line of the whitelist file that is neither blank nor a comment is an entry, wherever it stands;
/// a leading `~` is the user's directory, and variables are replaced.
pub proof fn whitelist_lines_are_entries(
    a: Seq<char>,
    line: Seq<char>,
    b: Seq<char>,
    env: Env,
)
    requires
        line.len() > 0,
        !line.contains('\n'),
        !crate::text::is_space(line[0]),
        !crate::text::is_space(line.last()),
        line[0] != '#',
        !line.contains('%'),
    ensures
        line[0] != '~' ==> entry_texts(
            lines_of(a + seq!['\n'] + line + seq!['\n'] + b),
            env,
        ).contains(line),
        line[0] == '~' ==> (home_of(env) matches Some(home) ==> !home.contains('%') ==> entry_texts(
            lines_of(a + seq!['\n'] + line + seq!['\n'] + b),
            env,
        ).contains(home + line.skip(1))),
{
    assert(line.last() != '\r');
    crate::text::lines_stand_between_line_feeds(a, line, b);
    let all = lines_of(a + seq!['\n'] + line + seq!['\n'] + b);
    let k = choose|k: int| 0 <= k < all.len() && all[k] == line;
    reveal_strlit("~");
    assert("~"@.len() == 1 && "~"@[0] == '~');
    assert(line.subrange(0, 1)[0] == line[0]);
    if line[0] != '~' {
        crate::targets::plain_fronts_stay(line, env);
        lemma_entry(all, k, env, line);
    } else {
        assert(line.subrange(0, 1) =~= "~"@);
        if let Some(home) = home_of(env) {
            if !home.contains('%') {
                let text = home + line.skip(1);
                assert(!text.contains('%')) by {
                    if text.contains('%') {
                        let i = choose|i: int| 0 <= i < text.len() && text[i] == '%';
                        if i < home.len() {
                            assert(home[i] == '%');
                        } else {
                            assert(line[i - home.len() + 1] == '%');
                        }
                    }
                }
                crate::targets::plain_fronts_stay(text, env);
                lemma_entry(all, k, env, text);
            }
        }
    }
}

proof fn lemma_entry(lines: Seq<Seq<char>>, k: int, env: Env, text: Seq<char>)
    requires
        0 <= k < lines.len(),
        lines[k].len() > 0,
        !crate::text::is_space(lines[k][0]),
        !crate::text::is_space(lines[k].last()),
        lines[k][0] != '#',
        entry_text(lines[k], env) == Some(text),
    ensures
        entry_texts(lines, env).contains(text),
    decreases lines.len(),
{
    let front = entry_texts(lines.drop_last(), env);
    let all = entry_texts(lines, env);
    if k < lines.len() - 1 {
        assert(lines.drop_last()[k] == lines[k]);
        lemma_entry(lines.drop_last(), k, env, text);
        let i = choose|i: int| 0 <= i < front.len() && front[i] == text;
        assert(all[i] == text);
    } else {
        let l = lines[k];
        crate::text::lemma_nothing_to_trim(l);
        reveal_strlit("#");
        assert("#"@.len() == 1 && "#"@[0] == '#');
        assert(!has_prefix(l, "#"@)) by {
            assert(l.subrange(0, 1)[0] == l[0]);
        }
        assert(all[front.len() as int] == text);
    }
}

/// Nothing else is kept: a whitelisted path is one that an entry names or leads to, or whose text fits an
/// entry with stars; without entries nothing is.
pub proof fn nothing_else_is_kept(
    s: SafetyRow,
    env: Env,
    whitelist: Seq<Seq<char>>,
    p: PathRow,
)
    requires
        is_guard_of(s, env, whitelist),
        whitelisted(s, p),
    ensures
        whitelist.len() > 0,
        exists|q: PathRow|
            whitelist.contains(q.text) && #[trigger] well_read(q) && (if q.text.contains('*') {
                fits_any_case(q.text, p.text)
            } else {
                reads_alike(p, q) || lies_below(p, q)
            }),
{
    let i = choose|i: int| 0 <= i < s.whitelist.len() && keeps(#[trigger] s.whitelist[i], p);
    let q = s.whitelist[i];
    assert(path_texts(s.whitelist)[i] == q.text);
    assert(whitelist[i] == q.text);
    lemma_below(p, q);
    assert(well_read(q));
}

} // verus!
