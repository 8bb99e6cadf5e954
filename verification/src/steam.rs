//! Steam's own library metadata: which libraries there are, and which games they hold.
//!
//! Registry entries of the form `Steam App <id>` carry no size. The manifests have the exact size
//! and the directory of a game, and removing a game is left to Steam, through
//! `steam://uninstall/<appid>`.

use vstd::prelude::*;
use vstd::slice::slice_subrange;

use crate::apps::{app_rows, dir_key, no_apps, norm_path, push_app, AppEntry, AppRow, Source};
use crate::calendar::{day_from_unix, day_of};
use crate::number::{parse_u64, parsed_number};
use crate::paths::{is_path_of, path_below, path_from};
use crate::safety::Env;
use crate::targets::{answers, answers_all};
use crate::text::{
    all_digits, ascii_lower, chars_of, contains, digits_in_front, digits_only, ends_with, find,
    has_prefix, has_suffix, is_digit, leading_digits, lemma_place_of, lines, lines_of, lower_ascii,
    no_texts, place_of, push_text, rows, same, same_str, starts_with, str_texts, string_of,
    text_opt, texts,
};

verus! {

// ---------------------------------------------------------------------------
// Which game a registry entry stands for
// ---------------------------------------------------------------------------

/// The id in an uninstall command: the digits behind the first `steam://uninstall/`, ASCII case
/// aside.
pub open spec fn url_id(command: Seq<char>) -> Option<Seq<char>> {
    let l = ascii_lower(command);
    let p = "steam://uninstall/"@;
    if contains(l, p) {
        let d = leading_digits(command.skip(place_of(l, p) + p.len()));
        if d.len() > 0 {
            Some(d)
        } else {
            None
        }
    } else {
        None
    }
}

/// The id in a name of the form `Steam App <id>`.
pub open spec fn name_id(name: Seq<char>) -> Option<Seq<char>> {
    let p = "Steam App "@;
    if has_prefix(name, p) && name.len() > p.len() && all_digits(name.skip(p.len() as int)) {
        Some(name.skip(p.len() as int))
    } else {
        None
    }
}

/// The Steam id of an inventory entry: what its command says, else what its name says.
pub open spec fn app_id(name: Seq<char>, command: Seq<char>) -> Option<Seq<char>> {
    match url_id(command) {
        Some(id) => Some(id),
        None => name_id(name),
    }
}

fn id_in_url(command: &[char]) -> (r: Option<String>)
    ensures
        text_opt(r) == url_id(command@),
{
    let lower = lower_ascii(command);
    let p = chars_of("steam://uninstall/");
    match find(lower.as_slice(), p.as_slice()) {
        None => None,
        Some(start) => {
            proof {
                lemma_place_of(lower@, p@, start as int);
            }
            assert(lower@.len() == command@.len());
            let end = command.len();
            let rest = slice_subrange(command, start + p.len(), end);
            assert(rest@ =~= command@.skip(start + p@.len()));
            let id = digits_in_front(rest);
            if id.len() > 0 {
                Some(string_of(id))
            } else {
                None
            }
        },
    }
}

/// The Steam id that matches a thin registry entry with the manifest of the same game. A missing
/// manifest therefore affects only its own game.
pub fn registry_app_id(name: &str, uninstall_string: &str) -> (r: Option<String>)
    ensures
        text_opt(r) == app_id(name@, uninstall_string@),
{
    if let Some(id) = id_in_url(chars_of(uninstall_string).as_slice()) {
        return Some(id);
    }
    let n = chars_of(name);
    let p = chars_of("Steam App ");
    if starts_with(n.as_slice(), "Steam App ") && n.len() > p.len() {
        let rest = slice_subrange(n.as_slice(), p.len(), n.len());
        assert(rest@ =~= n@.skip(p@.len() as int));
        if digits_only(rest) {
            return Some(string_of(rest));
        }
    }
    None
}

// ---------------------------------------------------------------------------
// Key and value lines
// ---------------------------------------------------------------------------

/// The quoted pieces of a line, read from outside quotes. Inside quotes a backslash keeps the
/// character behind it, whatever it is; a piece that no quote ends is none.
pub open spec fn pieces_outside(s: Seq<char>) -> Seq<Seq<char>>
    decreases s.len(),
{
    if s.len() == 0 {
        seq![]
    } else if s[0] == '"' {
        pieces_inside(s.skip(1), seq![])
    } else {
        pieces_outside(s.skip(1))
    }
}

/// The quoted pieces of a line, read from inside quotes, with what the current piece holds so far.
pub open spec fn pieces_inside(s: Seq<char>, current: Seq<char>) -> Seq<Seq<char>>
    decreases s.len(),
{
    if s.len() == 0 {
        seq![]
    } else if s[0] == '\\' {
        if s.len() == 1 {
            seq![]
        } else {
            pieces_inside(s.skip(2), current.push(s[1]))
        }
    } else if s[0] == '"' {
        seq![current] + pieces_outside(s.skip(1))
    } else {
        pieces_inside(s.skip(1), current.push(s[0]))
    }
}

/// The key and value of a line: its first two quoted pieces.
pub open spec fn key_value(line: Seq<char>) -> Option<(Seq<char>, Seq<char>)> {
    let p = pieces_outside(line);
    if p.len() >= 2 {
        Some((p[0], p[1]))
    } else {
        None
    }
}

/// The texts of an optional pair.
pub open spec fn pair_opt(o: Option<(String, String)>) -> Option<(Seq<char>, Seq<char>)> {
    match o {
        Some((a, b)) => Some((a@, b@)),
        None => None,
    }
}

fn quoted_pieces(line: &[char]) -> (r: Vec<String>)
    ensures
        texts(r@) == pieces_outside(line@),
{
    let mut out = no_texts();
    let mut current: Vec<char> = Vec::new();
    let mut inside = false;
    let mut i: usize = 0;
    let ghost all = pieces_outside(line@);
    assert(line@.skip(0) =~= line@);
    assert(Seq::<Seq<char>>::empty() + all =~= all);
    while i < line.len()
        invariant
            i <= line@.len(),
            all == pieces_outside(line@),
            all == texts(out@) + (if inside {
                pieces_inside(line@.skip(i as int), current@)
            } else {
                pieces_outside(line@.skip(i as int))
            }),
        decreases line@.len() - i,
    {
        let ghost rest = line@.skip(i as int);
        let c = line[i];
        assert(rest[0] == c);
        assert(rest.skip(1) =~= line@.skip(i + 1));
        if !inside {
            if c == '"' {
                inside = true;
                current = Vec::new();
                assert(current@ =~= Seq::<char>::empty());
            }
            i = i + 1;
        } else if c == '\\' {
            if i + 1 >= line.len() {
                assert(all =~= texts(out@));
                return out;
            }
            assert(rest[1] == line@[i + 1]);
            assert(rest.skip(2) =~= line@.skip(i + 2));
            current.push(line[i + 1]);
            i = i + 2;
        } else if c == '"' {
            let ghost before = texts(out@);
            push_text(&mut out, string_of(current.as_slice()));
            inside = false;
            assert(all =~= texts(out@) + pieces_outside(line@.skip(i + 1)));
            i = i + 1;
        } else {
            current.push(c);
            i = i + 1;
        }
    }
    assert(all =~= texts(out@));
    out
}

/// The key and value of a line such as `"key"  "value"`. Escaped quotes and backslashes survive.
pub fn kv_line(line: &str) -> (r: Option<(String, String)>)
    ensures
        pair_opt(r) == key_value(line@),
{
    let p = quoted_pieces(chars_of(line).as_slice());
    if p.len() >= 2 {
        assert(texts(p@)[0] == p@[0]@ && texts(p@)[1] == p@[1]@);
        Some((p[0].clone(), p[1].clone()))
    } else {
        None
    }
}

/// The values of the `path` lines.
pub open spec fn paths_in(lines: Seq<Seq<char>>) -> Seq<Seq<char>>
    decreases lines.len(),
{
    if lines.len() == 0 {
        seq![]
    } else {
        let front = paths_in(lines.drop_last());
        match key_value(lines.last()) {
            Some((k, v)) => if k == "path"@ {
                front.push(v)
            } else {
                front
            },
            None => front,
        }
    }
}

/// The library directories that `libraryfolders.vdf` lists: every `path` value.
pub fn parse_library_paths(vdf: &str) -> (r: Vec<String>)
    ensures
        texts(r@) == paths_in(lines_of(vdf@)),
{
    let all = lines(chars_of(vdf).as_slice());
    let ghost ls = rows(all@);
    let mut out = no_texts();
    assert(ls.take(0) =~= Seq::<Seq<char>>::empty());
    for i in 0..all.len()
        invariant
            ls == rows(all@),
            texts(out@) == paths_in(ls.take(i as int)),
    {
        assert(ls.take(i + 1).drop_last() =~= ls.take(i as int));
        assert(ls.take(i + 1).last() == all@[i as int]@);
        if let Some((k, v)) = kv_line(string_of(all[i].as_slice()).as_str()) {
            if crate::text::str_eq(k.as_str(), "path") {
                push_text(&mut out, v);
            }
        }
    }
    assert(ls.take(ls.len() as int) =~= ls);
    out
}

// ---------------------------------------------------------------------------
// Manifests
// ---------------------------------------------------------------------------

/// What a manifest says of a game.
pub struct AcfGame {
    pub appid: String,
    pub name: String,
    pub installdir: String,
    pub size_on_disk: u64,
    pub last_updated: u64,
}

/// A game as mathematical data.
pub struct AcfRow {
    pub appid: Seq<char>,
    pub name: Seq<char>,
    pub installdir: Seq<char>,
    pub size_on_disk: u64,
    pub last_updated: u64,
}

impl View for AcfGame {
    type V = AcfRow;

    open spec fn view(&self) -> AcfRow {
        AcfRow {
            appid: self.appid@,
            name: self.name@,
            installdir: self.installdir@,
            size_on_disk: self.size_on_disk,
            last_updated: self.last_updated,
        }
    }
}

/// A manifest that says nothing.
pub open spec fn no_game() -> AcfRow {
    AcfRow { appid: seq![], name: seq![], installdir: seq![], size_on_disk: 0, last_updated: 0 }
}

/// A number, 0 where the text is none.
pub open spec fn number_or_zero(s: Seq<char>) -> u64 {
    match parsed_number(s, u64::MAX as nat) {
        Some(n) => n as u64,
        None => 0,
    }
}

/// A text that was found first stays; a later one does not replace it.
pub open spec fn first_of(before: Seq<char>, v: Seq<char>) -> Seq<char> {
    if before.len() == 0 {
        v
    } else {
        before
    }
}

/// What is known of the game after a line. Of the id, the name and the directory the first text that
/// is not empty counts, of the numbers the last.
pub open spec fn with_acf_line(g: AcfRow, line: Seq<char>) -> AcfRow {
    match key_value(line) {
        None => g,
        Some((k, v)) => if k == "appid"@ {
            AcfRow { appid: first_of(g.appid, v), ..g }
        } else if k == "name"@ {
            AcfRow { name: first_of(g.name, v), ..g }
        } else if k == "installdir"@ {
            AcfRow { installdir: first_of(g.installdir, v), ..g }
        } else if k == "SizeOnDisk"@ {
            AcfRow { size_on_disk: number_or_zero(v), ..g }
        } else if k == "LastUpdated"@ {
            AcfRow { last_updated: number_or_zero(v), ..g }
        } else {
            g
        },
    }
}

pub open spec fn with_acf_lines(lines: Seq<Seq<char>>) -> AcfRow
    decreases lines.len(),
{
    if lines.len() == 0 {
        no_game()
    } else {
        with_acf_line(with_acf_lines(lines.drop_last()), lines.last())
    }
}

/// The manifest describes a game: its id, which goes into a `steam://` address, is made of digits
/// alone, and there is a name and a directory.
pub open spec fn is_game(g: AcfRow) -> bool {
    g.appid.len() > 0 && all_digits(g.appid) && g.name.len() > 0 && g.installdir.len() > 0
}

/// The game that a manifest describes.
pub open spec fn game_in(acf: Seq<char>) -> Option<AcfRow> {
    let g = with_acf_lines(lines_of(acf));
    if is_game(g) {
        Some(g)
    } else {
        None
    }
}

pub open spec fn game_opt(o: Option<AcfGame>) -> Option<AcfRow> {
    match o {
        Some(g) => Some(g@),
        None => None,
    }
}

fn read_number(v: &str) -> (r: u64)
    ensures
        r == number_or_zero(v@),
{
    match parse_u64(chars_of(v).as_slice()) {
        Some(n) => n,
        None => 0,
    }
}

/// Whether a string holds no character.
fn is_blank(s: &str) -> (r: bool)
    ensures
        r == (s@.len() == 0),
{
    chars_of(s).len() == 0
}

impl AcfGame {
    fn read_line(&mut self, line: &[char])
        ensures
            final(self)@ == with_acf_line(old(self)@, line@),
    {
        if let Some((k, v)) = kv_line(string_of(line).as_str()) {
            let key = chars_of(k.as_str());
            let s = key.as_slice();
            if same_str(s, "appid") {
                if is_blank(self.appid.as_str()) {
                    self.appid = v;
                }
            } else if same_str(s, "name") {
                if is_blank(self.name.as_str()) {
                    self.name = v;
                }
            } else if same_str(s, "installdir") {
                if is_blank(self.installdir.as_str()) {
                    self.installdir = v;
                }
            } else if same_str(s, "SizeOnDisk") {
                self.size_on_disk = read_number(v.as_str());
            } else if same_str(s, "LastUpdated") {
                self.last_updated = read_number(v.as_str());
            }
        }
    }
}

/// The game that a manifest describes.
pub fn parse_acf(acf: &str) -> (r: Option<AcfGame>)
    ensures
        game_opt(r) == game_in(acf@),
{
    let all = lines(chars_of(acf).as_slice());
    let ghost ls = rows(all@);
    let mut game = AcfGame {
        appid: String::new(),
        name: String::new(),
        installdir: String::new(),
        size_on_disk: 0,
        last_updated: 0,
    };
    assert(game@.appid =~= Seq::<char>::empty());
    assert(game@.name =~= Seq::<char>::empty());
    assert(game@.installdir =~= Seq::<char>::empty());
    assert(ls.take(0) =~= Seq::<Seq<char>>::empty());
    for i in 0..all.len()
        invariant
            ls == rows(all@),
            game@ == with_acf_lines(ls.take(i as int)),
    {
        assert(ls.take(i + 1).drop_last() =~= ls.take(i as int));
        assert(ls.take(i + 1).last() == all@[i as int]@);
        game.read_line(all[i].as_slice());
    }
    assert(ls.take(ls.len() as int) =~= ls);
    let id = chars_of(game.appid.as_str());
    if id.len() > 0 && digits_only(id.as_slice()) && !is_blank(game.name.as_str()) && !is_blank(
        game.installdir.as_str(),
    ) {
        Some(game)
    } else {
        None
    }
}

// ---------------------------------------------------------------------------
// Libraries
// ---------------------------------------------------------------------------

/// What is asked of the file system. A path comes as the pieces it is joined from.
pub struct SteamFiles<K, R, L> {
    /// Whether a directory is at the path.
    pub is_dir: K,
    /// The text of the file at the path.
    pub read: R,
    /// The names in the directory at the path.
    pub list: L,
}

/// What the file system answers.
pub struct SteamWorld {
    pub dirs: spec_fn(Seq<Seq<char>>) -> bool,
    pub files: spec_fn(Seq<Seq<char>>) -> Option<Seq<char>>,
    pub names: spec_fn(Seq<Seq<char>>) -> Option<Seq<Seq<char>>>,
}

/// The texts of an optional list.
pub open spec fn texts_opt(o: Option<Vec<String>>) -> Option<Seq<Seq<char>>> {
    match o {
        Some(v) => Some(texts(v@)),
        None => None,
    }
}

/// The file system can be asked for every path.
pub open spec fn answers_every_path<
    K: Fn(&Vec<String>) -> bool,
    R: Fn(&Vec<String>) -> Option<String>,
    L: Fn(&Vec<String>) -> Option<Vec<String>>,
>(f: SteamFiles<K, R, L>) -> bool {
    &&& forall|p: &Vec<String>| #[trigger] call_requires(f.is_dir, (p,))
    &&& forall|p: &Vec<String>| #[trigger] call_requires(f.read, (p,))
    &&& forall|p: &Vec<String>| #[trigger] call_requires(f.list, (p,))
}

/// The file system gives what the world says, whenever it is asked.
pub open spec fn shows<
    K: Fn(&Vec<String>) -> bool,
    R: Fn(&Vec<String>) -> Option<String>,
    L: Fn(&Vec<String>) -> Option<Vec<String>>,
>(f: SteamFiles<K, R, L>, w: SteamWorld) -> bool {
    &&& forall|p: &Vec<String>, r: bool| #[trigger]
        call_ensures(f.is_dir, (p,), r) ==> r == (w.dirs)(texts(p@))
    &&& forall|p: &Vec<String>, r: Option<String>| #[trigger]
        call_ensures(f.read, (p,), r) ==> text_opt(r) == (w.files)(texts(p@))
    &&& forall|p: &Vec<String>, r: Option<Vec<String>>| #[trigger]
        call_ensures(f.list, (p,), r) ==> texts_opt(r) == (w.names)(texts(p@))
}

/// The list holds the directory, case and separators aside.
pub open spec fn knows_library(libs: Seq<Seq<char>>, p: Seq<char>) -> bool {
    exists|i: int| 0 <= i < libs.len() && dir_key(#[trigger] libs[i]) == dir_key(p)
}

/// The list with a library that exists and is new.
pub open spec fn with_library(libs: Seq<Seq<char>>, p: Seq<char>, w: SteamWorld) -> Seq<Seq<char>> {
    if (w.dirs)(seq![p]) && !knows_library(libs, p) {
        libs.push(p)
    } else {
        libs
    }
}

/// The list with all that exist and are new.
pub open spec fn with_libraries(
    libs: Seq<Seq<char>>,
    more: Seq<Seq<char>>,
    w: SteamWorld,
) -> Seq<Seq<char>>
    decreases more.len(),
{
    if more.len() == 0 {
        libs
    } else {
        with_library(with_libraries(libs, more.drop_last(), w), more.last(), w)
    }
}

/// The libraries that the Steam directory lists.
pub open spec fn listed_libraries(root: Seq<char>, w: SteamWorld) -> Seq<Seq<char>> {
    match (w.files)(seq![root, "steamapps"@, "libraryfolders.vdf"@]) {
        Some(content) => paths_in(lines_of(content)),
        None => seq![],
    }
}

/// The Steam directory and the libraries that it lists.
pub open spec fn root_libraries(root: Seq<char>, w: SteamWorld) -> Seq<Seq<char>> {
    with_libraries(with_library(seq![], root, w), listed_libraries(root, w), w)
}

/// The library that users keep at the top of a drive.
pub open spec fn drive_library(k: int) -> Seq<char> {
    seq![(65 + k) as u8 as char] + ":\\SteamLibrary"@
}

/// The libraries at the top of the first `n` drives.
pub open spec fn drive_libraries(n: nat, w: SteamWorld) -> Seq<Seq<char>>
    decreases n,
{
    if n == 0 {
        seq![]
    } else {
        let front = drive_libraries((n - 1) as nat, w);
        let lib = drive_library(n - 1);
        if (w.dirs)(seq![lib, "steamapps"@]) {
            front.push(lib)
        } else {
            front
        }
    }
}

/// Every library: those of the Steam directory, if it was found, and on Windows those at the top of
/// a drive.
pub open spec fn all_libraries(root: Option<Seq<char>>, windows: bool, w: SteamWorld) -> Seq<
    Seq<char>,
> {
    let first = match root {
        Some(r) => root_libraries(r, w),
        None => seq![],
    };
    with_libraries(
        first,
        if windows {
            drive_libraries(26, w)
        } else {
            seq![]
        },
        w,
    )
}

fn one_piece(a: &str) -> (r: Vec<String>)
    ensures
        texts(r@) == seq![a@],
{
    let mut p = no_texts();
    push_text(&mut p, a.to_string());
    assert(texts(p@) =~= seq![a@]);
    p
}

fn two_pieces(a: &str, b: &str) -> (r: Vec<String>)
    ensures
        texts(r@) == seq![a@, b@],
{
    let mut p = one_piece(a);
    push_text(&mut p, b.to_string());
    assert(texts(p@) =~= seq![a@, b@]);
    p
}

fn three_pieces(a: &str, b: &str, c: &str) -> (r: Vec<String>)
    ensures
        texts(r@) == seq![a@, b@, c@],
{
    let mut p = two_pieces(a, b);
    push_text(&mut p, c.to_string());
    assert(texts(p@) =~= seq![a@, b@, c@]);
    p
}

fn library_known(libs: &Vec<String>, p: &str) -> (r: bool)
    ensures
        r == knows_library(texts(libs@), p@),
{
    let key = norm_path(p);
    for i in 0..libs.len()
        invariant
            key@ == dir_key(p@),
            forall|j: int| 0 <= j < i ==> dir_key(#[trigger] texts(libs@)[j]) != key@,
    {
        assert(texts(libs@)[i as int] == libs@[i as int]@);
        if same(norm_path(libs[i].as_str()).as_slice(), key.as_slice()) {
            return true;
        }
    }
    false
}

fn add_library<
    K: Fn(&Vec<String>) -> bool,
    R: Fn(&Vec<String>) -> Option<String>,
    L: Fn(&Vec<String>) -> Option<Vec<String>>,
>(libs: &mut Vec<String>, p: &str, files: &SteamFiles<K, R, L>)
    requires
        answers_every_path(*files),
    ensures
        forall|w: SteamWorld|
            shows(*files, w) ==> texts(final(libs)@) == #[trigger] with_library(
                texts(old(libs)@),
                p@,
                w,
            ),
{
    let ghost before = texts(libs@);
    let pieces = one_piece(p);
    let there = (files.is_dir)(&pieces);
    if there && !library_known(libs, p) {
        push_text(libs, p.to_string());
    }
    assert forall|w: SteamWorld| shows(*files, w) implies texts(libs@) == #[trigger] with_library(
        before,
        p@,
        w,
    ) by {
        assert(there == (w.dirs)(seq![p@]));
    }
}

fn add_libraries<
    K: Fn(&Vec<String>) -> bool,
    R: Fn(&Vec<String>) -> Option<String>,
    L: Fn(&Vec<String>) -> Option<Vec<String>>,
>(libs: &mut Vec<String>, more: &Vec<String>, files: &SteamFiles<K, R, L>)
    requires
        answers_every_path(*files),
    ensures
        forall|w: SteamWorld|
            shows(*files, w) ==> texts(final(libs)@) == #[trigger] with_libraries(
                texts(old(libs)@),
                texts(more@),
                w,
            ),
{
    let ghost before = texts(libs@);
    let ghost all = texts(more@);
    let mut i: usize = 0;
    assert(all.take(0) =~= Seq::<Seq<char>>::empty());
    while i < more.len()
        invariant
            i <= more@.len(),
            all == texts(more@),
            answers_every_path(*files),
            forall|w: SteamWorld|
                shows(*files, w) ==> texts(libs@) == #[trigger] with_libraries(
                    before,
                    all.take(i as int),
                    w,
                ),
        decreases more@.len() - i,
    {
        let ghost sofar = texts(libs@);
        assert(all.take(i + 1).drop_last() =~= all.take(i as int));
        assert(all.take(i + 1).last() == more@[i as int]@);
        add_library(libs, more[i].as_str(), files);
        assert forall|w: SteamWorld| shows(*files, w) implies texts(libs@)
            == #[trigger] with_libraries(before, all.take(i + 1), w) by {
            assert(sofar == with_libraries(before, all.take(i as int), w));
            assert(texts(libs@) == with_library(sofar, more@[i as int]@, w));
        }
        i = i + 1;
    }
    assert(all.take(all.len() as int) =~= all);
}

fn vdf_libraries<
    K: Fn(&Vec<String>) -> bool,
    R: Fn(&Vec<String>) -> Option<String>,
    L: Fn(&Vec<String>) -> Option<Vec<String>>,
>(root: &str, files: &SteamFiles<K, R, L>) -> (r: Vec<String>)
    requires
        answers_every_path(*files),
    ensures
        forall|w: SteamWorld|
            shows(*files, w) ==> texts(r@) == #[trigger] listed_libraries(root@, w),
{
    let pieces = three_pieces(root, "steamapps", "libraryfolders.vdf");
    let got = (files.read)(&pieces);
    let r = match &got {
        Some(content) => parse_library_paths(content.as_str()),
        None => no_texts(),
    };
    assert forall|w: SteamWorld| shows(*files, w) implies texts(r@) == #[trigger] listed_libraries(
        root@,
        w,
    ) by {
        assert(text_opt(got) == (w.files)(seq![root@, "steamapps"@, "libraryfolders.vdf"@]));
    }
    r
}

/// The libraries at the top of a drive, for every drive letter.
fn drive_scan_libraries<
    K: Fn(&Vec<String>) -> bool,
    R: Fn(&Vec<String>) -> Option<String>,
    L: Fn(&Vec<String>) -> Option<Vec<String>>,
>(files: &SteamFiles<K, R, L>) -> (r: Vec<String>)
    requires
        answers_every_path(*files),
    ensures
        forall|w: SteamWorld|
            shows(*files, w) ==> texts(r@) == #[trigger] drive_libraries(26, w),
{
    let mut out = no_texts();
    let mut k: u8 = 0;
    while k < 26
        invariant
            k <= 26,
            answers_every_path(*files),
            forall|w: SteamWorld|
                shows(*files, w) ==> texts(out@) == #[trigger] drive_libraries(k as nat, w),
        decreases 26 - k,
    {
        let ghost sofar = texts(out@);
        let mut lib = String::new();
        lib.push((65 + k) as char);
        lib.append(":\\SteamLibrary");
        assert(lib@ =~= drive_library(k as int));
        let pieces = two_pieces(lib.as_str(), "steamapps");
        let there = (files.is_dir)(&pieces);
        if there {
            push_text(&mut out, lib);
        }
        k = k + 1;
        assert forall|w: SteamWorld| shows(*files, w) implies texts(out@)
            == #[trigger] drive_libraries(k as nat, w) by {
            assert(sofar == drive_libraries((k - 1) as nat, w));
            assert(there == (w.dirs)(seq![drive_library(k - 1), "steamapps"@]));
        }
    }
    out
}

// ---------------------------------------------------------------------------
// Games
// ---------------------------------------------------------------------------

/// A game and the library it is in.
pub struct FoundGame {
    pub library: Seq<char>,
    pub game: AcfRow,
}

/// The name is that of a manifest.
pub open spec fn is_manifest(name: Seq<char>) -> bool {
    has_prefix(name, "appmanifest_"@) && has_suffix(name, ".acf"@)
}

/// The game of an entry in a library's directory, if there is one. A manifest that cannot be read, or
/// describes no game, is passed over.
pub open spec fn game_named(lib: Seq<char>, name: Seq<char>, w: SteamWorld) -> Seq<FoundGame> {
    if !is_manifest(name) {
        seq![]
    } else {
        match (w.files)(seq![lib, "steamapps"@, name]) {
            None => seq![],
            Some(content) => match game_in(content) {
                None => seq![],
                Some(game) => seq![FoundGame { library: lib, game }],
            },
        }
    }
}

/// The games of a library, by the names in its directory.
pub open spec fn games_named(lib: Seq<char>, names: Seq<Seq<char>>, w: SteamWorld) -> Seq<FoundGame>
    decreases names.len(),
{
    if names.len() == 0 {
        seq![]
    } else {
        games_named(lib, names.drop_last(), w) + game_named(lib, names.last(), w)
    }
}

/// The games of a library.
pub open spec fn games_of(lib: Seq<char>, w: SteamWorld) -> Seq<FoundGame> {
    match (w.names)(seq![lib, "steamapps"@]) {
        None => seq![],
        Some(names) => games_named(lib, names, w),
    }
}

/// The games of a list of libraries.
pub open spec fn games_of_all(libs: Seq<Seq<char>>, w: SteamWorld) -> Seq<FoundGame>
    decreases libs.len(),
{
    if libs.len() == 0 {
        seq![]
    } else {
        games_of_all(libs.drop_last(), w) + games_of(libs.last(), w)
    }
}

/// The inventory entry of a game. Its location is the path that the platform makes of the library,
/// `steamapps`, `common` and the directory of the game.
pub open spec fn is_entry_of(a: AppRow, f: FoundGame) -> bool {
    &&& a.name == f.game.name
    &&& a.version == Seq::<char>::empty()
    &&& a.publisher == "Steam"@
    &&& is_path_of(a.location, seq![f.library, "steamapps"@, "common"@, f.game.installdir])
    &&& a.uninstall_string == "steam://uninstall/"@ + f.game.appid
    &&& a.reg_key == Seq::<char>::empty()
    &&& a.size_bytes == (if f.game.size_on_disk > 0 {
        Some(f.game.size_on_disk)
    } else {
        None
    })
    &&& a.install_date == (if f.game.last_updated > 0 {
        Some(day_of(f.game.last_updated as int))
    } else {
        None
    })
    &&& a.source == Source::Steam
}

/// The entries are those of the games, in order.
pub open spec fn are_entries_of(apps: Seq<AppRow>, games: Seq<FoundGame>) -> bool {
    apps.len() == games.len() && forall|i: int|
        0 <= i < apps.len() ==> is_entry_of(#[trigger] apps[i], games[i])
}

fn entry_for(lib: &str, game: AcfGame) -> (r: AppEntry)
    ensures
        is_entry_of(r@, (FoundGame { library: lib@, game: game@ })),
{
    let names: [&str; 3] = ["steamapps", "common", game.installdir.as_str()];
    let location = path_below(lib, names.as_slice());
    assert(seq![lib@] + str_texts(names@) =~= seq![
        lib@,
        "steamapps"@,
        "common"@,
        game.installdir@,
    ]);
    let mut url = "steam://uninstall/".to_string();
    url.append(game.appid.as_str());
    let install_date = if game.last_updated > 0 {
        Some(day_from_unix(game.last_updated))
    } else {
        None
    };
    let r = AppEntry {
        name: game.name,
        version: String::new(),
        publisher: "Steam".to_string(),
        location,
        uninstall_string: url,
        reg_key: String::new(),
        size_bytes: if game.size_on_disk > 0 {
            Some(game.size_on_disk)
        } else {
            None
        },
        install_date,
        source: Source::Steam,
    };
    assert(r@.version =~= Seq::<char>::empty());
    assert(r@.reg_key =~= Seq::<char>::empty());
    r
}

/// Adds the game of a manifest, if the name is one of a manifest and it describes a game.
fn add_manifest<
    K: Fn(&Vec<String>) -> bool,
    R: Fn(&Vec<String>) -> Option<String>,
    L: Fn(&Vec<String>) -> Option<Vec<String>>,
>(out: &mut Vec<AppEntry>, lib: &str, name: &str, files: &SteamFiles<K, R, L>)
    requires
        answers_every_path(*files),
    ensures
        forall|w: SteamWorld|
            shows(*files, w) ==> #[trigger] extends_by(
                app_rows(old(out)@),
                app_rows(final(out)@),
                game_named(lib@, name@, w),
            ),
{
    let n = chars_of(name);
    let ghost before = app_rows(out@);
    assert(before.take(before.len() as int) =~= before);
    assert(before.skip(before.len() as int) =~= Seq::<AppRow>::empty());
    if !(starts_with(n.as_slice(), "appmanifest_") && ends_with(n.as_slice(), ".acf")) {
        return;
    }
    let pieces = three_pieces(lib, "steamapps", name);
    let got = (files.read)(&pieces);
    let ghost text = text_opt(got);
    let mut described: Option<AcfGame> = None;
    if let Some(content) = &got {
        described = parse_acf(content.as_str());
    }
    let ghost found = game_opt(described);
    if let Some(game) = described {
        let e = entry_for(lib, game);
        push_app(out, e);
    }
    assert forall|w: SteamWorld| shows(*files, w) implies #[trigger] extends_by(
        before,
        app_rows(out@),
        game_named(lib@, name@, w),
    ) by {
        assert(text == (w.files)(seq![lib@, "steamapps"@, name@]));
        assert(app_rows(out@).take(before.len() as int) =~= before);
    }
}

/// The second list is the first with the entries of the games behind it.
pub open spec fn extends_by(before: Seq<AppRow>, after: Seq<AppRow>, games: Seq<FoundGame>) -> bool {
    &&& before.len() <= after.len()
    &&& after.take(before.len() as int) == before
    &&& are_entries_of(after.skip(before.len() as int), games)
}

proof fn lemma_extends_twice(
    a: Seq<AppRow>,
    b: Seq<AppRow>,
    c: Seq<AppRow>,
    g: Seq<FoundGame>,
    h: Seq<FoundGame>,
)
    requires
        extends_by(a, b, g),
        extends_by(b, c, h),
    ensures
        extends_by(a, c, g + h),
{
    assert(c.take(a.len() as int) =~= b.take(a.len() as int)) by {
        assert(c.take(b.len() as int) == b);
    }
    let all = c.skip(a.len() as int);
    assert forall|i: int| 0 <= i < all.len() implies is_entry_of(#[trigger] all[i], (g + h)[i]) by {
        if i < g.len() {
            assert(all[i] == c[a.len() + i]);
            assert(c.take(b.len() as int)[a.len() + i] == b[a.len() + i]);
            assert(b.skip(a.len() as int)[i] == b[a.len() + i]);
        } else {
            assert(all[i] == c.skip(b.len() as int)[i - g.len()]);
        }
    }
}

/// Adds the games of every manifest in one library.
fn scan_library<
    K: Fn(&Vec<String>) -> bool,
    R: Fn(&Vec<String>) -> Option<String>,
    L: Fn(&Vec<String>) -> Option<Vec<String>>,
>(out: &mut Vec<AppEntry>, lib: &str, files: &SteamFiles<K, R, L>)
    requires
        answers_every_path(*files),
    ensures
        forall|w: SteamWorld|
            shows(*files, w) ==> extends_by(
                app_rows(old(out)@),
                app_rows(final(out)@),
                #[trigger] games_of(lib@, w),
            ),
{
    let ghost before = app_rows(out@);
    let pieces = two_pieces(lib, "steamapps");
    let got = (files.list)(&pieces);
    let ghost shown = texts_opt(got);
    assert(before.take(before.len() as int) =~= before);
    assert(before.skip(before.len() as int) =~= Seq::<AppRow>::empty());
    if let Some(names) = got {
        let ghost all = texts(names@);
        let mut i: usize = 0;
        assert(all.take(0) =~= Seq::<Seq<char>>::empty());
        while i < names.len()
            invariant
                i <= names@.len(),
                all == texts(names@),
                answers_every_path(*files),
                forall|w: SteamWorld|
                    shows(*files, w) ==> extends_by(
                        before,
                        app_rows(out@),
                        #[trigger] games_named(lib@, all.take(i as int), w),
                    ),
            decreases names@.len() - i,
        {
            let ghost mid = app_rows(out@);
            add_manifest(out, lib, names[i].as_str(), files);
            assert forall|w: SteamWorld| shows(*files, w) implies extends_by(
                before,
                app_rows(out@),
                #[trigger] games_named(lib@, all.take(i + 1), w),
            ) by {
                assert(all[i as int] == names@[i as int]@);
                assert(all.take(i + 1).drop_last() =~= all.take(i as int));
                assert(extends_by(before, mid, games_named(lib@, all.take(i as int), w)));
                assert(extends_by(mid, app_rows(out@), game_named(lib@, all[i as int], w)));
                lemma_extends_twice(
                    before,
                    mid,
                    app_rows(out@),
                    games_named(lib@, all.take(i as int), w),
                    game_named(lib@, all[i as int], w),
                );
            }
            i = i + 1;
        }
        assert(all.take(all.len() as int) =~= all);
        assert forall|w: SteamWorld| shows(*files, w) implies extends_by(
            before,
            app_rows(out@),
            #[trigger] games_of(lib@, w),
        ) by {
            assert(shown == (w.names)(seq![lib@, "steamapps"@]));
            assert(extends_by(before, app_rows(out@), games_named(lib@, all, w)));
        }
    } else {
        assert forall|w: SteamWorld| shows(*files, w) implies extends_by(
            before,
            app_rows(out@),
            #[trigger] games_of(lib@, w),
        ) by {
            assert(shown == (w.names)(seq![lib@, "steamapps"@]));
        }
    }
}

fn scan_libraries<
    K: Fn(&Vec<String>) -> bool,
    R: Fn(&Vec<String>) -> Option<String>,
    L: Fn(&Vec<String>) -> Option<Vec<String>>,
>(libs: &Vec<String>, files: &SteamFiles<K, R, L>) -> (r: Vec<AppEntry>)
    requires
        answers_every_path(*files),
    ensures
        forall|w: SteamWorld|
            shows(*files, w) ==> are_entries_of(
                app_rows(r@),
                #[trigger] games_of_all(texts(libs@), w),
            ),
{
    let mut out = no_apps();
    let ghost all = texts(libs@);
    let ghost none = app_rows(out@);
    let mut i: usize = 0;
    assert(all.take(0) =~= Seq::<Seq<char>>::empty());
    assert(none.take(0) =~= none);
    assert(none.skip(0) =~= none);
    while i < libs.len()
        invariant
            i <= libs@.len(),
            all == texts(libs@),
            none == Seq::<AppRow>::empty(),
            answers_every_path(*files),
            forall|w: SteamWorld|
                shows(*files, w) ==> extends_by(
                    none,
                    app_rows(out@),
                    #[trigger] games_of_all(all.take(i as int), w),
                ),
        decreases libs@.len() - i,
    {
        let ghost mid = app_rows(out@);
        assert(all.take(i + 1).drop_last() =~= all.take(i as int));
        assert(all.take(i + 1).last() == libs@[i as int]@);
        scan_library(&mut out, libs[i].as_str(), files);
        assert forall|w: SteamWorld| shows(*files, w) implies extends_by(
            none,
            app_rows(out@),
            #[trigger] games_of_all(all.take(i + 1), w),
        ) by {
            assert(extends_by(none, mid, games_of_all(all.take(i as int), w)));
            assert(extends_by(mid, app_rows(out@), games_of(libs@[i as int]@, w)));
            lemma_extends_twice(
                none,
                mid,
                app_rows(out@),
                games_of_all(all.take(i as int), w),
                games_of(libs@[i as int]@, w),
            );
        }
        i = i + 1;
    }
    assert(all.take(all.len() as int) =~= all);
    assert(app_rows(out@).skip(0) =~= app_rows(out@));
    out
}

/// The games of the Steam directory and the libraries that it lists.
pub fn collect_from_root<
    K: Fn(&Vec<String>) -> bool,
    R: Fn(&Vec<String>) -> Option<String>,
    L: Fn(&Vec<String>) -> Option<Vec<String>>,
>(root: &str, files: &SteamFiles<K, R, L>) -> (r: Vec<AppEntry>)
    requires
        answers_every_path(*files),
    ensures
        forall|w: SteamWorld|
            shows(*files, w) ==> are_entries_of(
                app_rows(r@),
                games_of_all(#[trigger] root_libraries(root@, w), w),
            ),
{
    let libs = libraries_of_root(root, files);
    let r = scan_libraries(&libs, files);
    assert forall|w: SteamWorld| shows(*files, w) implies are_entries_of(
        app_rows(r@),
        games_of_all(#[trigger] root_libraries(root@, w), w),
    ) by {
        assert(texts(libs@) == root_libraries(root@, w));
        assert(are_entries_of(app_rows(r@), games_of_all(texts(libs@), w)));
    }
    r
}

fn libraries_of_root<
    K: Fn(&Vec<String>) -> bool,
    R: Fn(&Vec<String>) -> Option<String>,
    L: Fn(&Vec<String>) -> Option<Vec<String>>,
>(root: &str, files: &SteamFiles<K, R, L>) -> (r: Vec<String>)
    requires
        answers_every_path(*files),
    ensures
        forall|w: SteamWorld|
            shows(*files, w) ==> texts(r@) == #[trigger] root_libraries(root@, w),
{
    let mut libs = no_texts();
    add_library(&mut libs, root, files);
    let ghost one = texts(libs@);
    let listed = vdf_libraries(root, files);
    add_libraries(&mut libs, &listed, files);
    assert forall|w: SteamWorld| shows(*files, w) implies texts(libs@) == #[trigger] root_libraries(
        root@,
        w,
    ) by {
        assert(one == with_library(Seq::<Seq<char>>::empty(), root@, w));
        assert(texts(listed@) == listed_libraries(root@, w));
        assert(texts(libs@) == with_libraries(one, texts(listed@), w));
    }
    libs
}

/// The games of every library: of the Steam directory, if it was found, and of the drives.
pub fn collect<
    K: Fn(&Vec<String>) -> bool,
    R: Fn(&Vec<String>) -> Option<String>,
    L: Fn(&Vec<String>) -> Option<Vec<String>>,
>(root: Option<&str>, windows: bool, files: &SteamFiles<K, R, L>) -> (r: Vec<AppEntry>)
    requires
        answers_every_path(*files),
    ensures
        forall|w: SteamWorld|
            shows(*files, w) ==> are_entries_of(
                app_rows(r@),
                games_of_all(#[trigger] all_libraries(str_opt(root), windows, w), w),
            ),
{
    let mut libs = match root {
        Some(r) => libraries_of_root(r, files),
        None => no_texts(),
    };
    let ghost first = texts(libs@);
    let drives = if windows {
        drive_scan_libraries(files)
    } else {
        no_texts()
    };
    add_libraries(&mut libs, &drives, files);
    let r = scan_libraries(&libs, files);
    assert forall|w: SteamWorld| shows(*files, w) implies are_entries_of(
        app_rows(r@),
        games_of_all(#[trigger] all_libraries(str_opt(root), windows, w), w),
    ) by {
        if let Some(t) = root {
            assert(first == root_libraries(t@, w));
        }
        if windows {
            assert(texts(drives@) == drive_libraries(26, w));
        }
        assert(texts(libs@) == with_libraries(first, texts(drives@), w));
        assert(are_entries_of(app_rows(r@), games_of_all(texts(libs@), w)));
    }
    r
}

/// The text of an optional string slice.
pub open spec fn str_opt(o: Option<&str>) -> Option<Seq<char>> {
    match o {
        Some(s) => Some(s@),
        None => None,
    }
}

// ---------------------------------------------------------------------------
// The Steam directory
// ---------------------------------------------------------------------------

/// Where the Steam directory was found.
pub enum RootPlace {
    /// At the given path.
    Here(Seq<char>),
    /// At `Steam` below the given path.
    Below(Seq<char>),
    Nowhere,
}

/// The Steam directory: the one that the environment names, then on Windows the one that the
/// registry names, then the usual place; only a directory that exists counts.
pub open spec fn root_place(
    env: Env,
    windows: bool,
    registry: Seq<char>,
    w: SteamWorld,
) -> RootPlace {
    let named = match env("DPAN_STEAM_DIR"@) {
        Some(d) => (w.dirs)(seq![d]),
        None => false,
    };
    if named {
        RootPlace::Here(env("DPAN_STEAM_DIR"@)->Some_0)
    } else if windows && registry.len() > 0 && (w.dirs)(seq![registry]) {
        RootPlace::Here(registry)
    } else if windows {
        match env("ProgramFiles(x86)"@) {
            Some(p) => if (w.dirs)(seq![p, "Steam"@]) {
                RootPlace::Below(p)
            } else {
                RootPlace::Nowhere
            },
            None => RootPlace::Nowhere,
        }
    } else {
        RootPlace::Nowhere
    }
}

/// The text is that of the place.
pub open spec fn is_root(text: Option<Seq<char>>, place: RootPlace) -> bool {
    match place {
        RootPlace::Here(p) => text == Some(p),
        RootPlace::Below(p) => text is Some && is_path_of(text->Some_0, seq![p, "Steam"@]),
        RootPlace::Nowhere => text is None,
    }
}

/// The Steam directory. `registry` is what the registry names, empty where it names none.
pub fn steam_root<
    F: Fn(&str) -> Option<String>,
    K: Fn(&Vec<String>) -> bool,
    R: Fn(&Vec<String>) -> Option<String>,
    L: Fn(&Vec<String>) -> Option<Vec<String>>,
>(lookup: &F, windows: bool, registry: &str, files: &SteamFiles<K, R, L>) -> (r: Option<String>)
    requires
        answers_all(*lookup),
        answers_every_path(*files),
    ensures
        forall|env: Env, w: SteamWorld|
            answers(*lookup, env) && shows(*files, w) ==> is_root(
                text_opt(r),
                #[trigger] root_place(env, windows, registry@, w),
            ),
{
    let named = lookup("DPAN_STEAM_DIR");
    if let Some(d) = &named {
        let pieces = one_piece(d.as_str());
        let there = (files.is_dir)(&pieces);
        if there {
            return Some(d.clone());
        }
    }
    if !windows {
        return None;
    }
    if !is_blank(registry) {
        let pieces = one_piece(registry);
        let there = (files.is_dir)(&pieces);
        if there {
            return Some(registry.to_string());
        }
    }
    let programs = lookup("ProgramFiles(x86)");
    if let Some(p) = &programs {
        let pieces = two_pieces(p.as_str(), "Steam");
        let there = (files.is_dir)(&pieces);
        if there {
            let r = path_from(&pieces);
            return Some(r);
        }
    }
    None
}

// ---------------------------------------------------------------------------
// Laws
// ---------------------------------------------------------------------------

/// The id of a game that a manifest describes is made of digits alone, and there is at least one; so
/// nothing else gets into the address that is handed to the shell.
pub proof fn game_ids_are_digits(acf: Seq<char>)
    requires
        game_in(acf) is Some,
    ensures
        game_in(acf)->Some_0.appid.len() > 0,
        all_digits(game_in(acf)->Some_0.appid),
{
}

/// A text with its quotes and backslashes escaped, as it stands between quotes.
pub open spec fn escaped(s: Seq<char>) -> Seq<char>
    decreases s.len(),
{
    if s.len() == 0 {
        seq![]
    } else if s[0] == '"' || s[0] == '\\' {
        seq!['\\', s[0]] + escaped(s.drop_first())
    } else {
        seq![s[0]] + escaped(s.drop_first())
    }
}

proof fn lemma_escaped(s: Seq<char>, current: Seq<char>, behind: Seq<char>)
    ensures
        pieces_inside(escaped(s) + seq!['"'] + behind, current) == seq![current + s]
            + pieces_outside(behind),
    decreases s.len(),
{
    let t = escaped(s) + seq!['"'] + behind;
    if s.len() == 0 {
        assert(t.skip(1) =~= behind);
        assert(current + s =~= current);
    } else {
        let rest = s.drop_first();
        lemma_escaped(rest, current.push(s[0]), behind);
        assert(current.push(s[0]) + rest =~= current + s);
        if s[0] == '"' || s[0] == '\\' {
            assert(t[0] == '\\' && t[1] == s[0]);
            assert(t.skip(2) =~= escaped(rest) + seq!['"'] + behind);
        } else {
            assert(t[0] == s[0]);
            assert(t.skip(1) =~= escaped(rest) + seq!['"'] + behind);
        }
    }
}

/// Whatever key and value are written between quotes, escaped, with blanks between them, reads back
/// as that key and value.
pub proof fn key_and_value_read_back(key: Seq<char>, value: Seq<char>, between: Seq<char>)
    requires
        !between.contains('"'),
    ensures
        key_value(
            seq!['"'] + escaped(key) + seq!['"'] + between + seq!['"'] + escaped(value) + seq!['"'],
        ) == Some((key, value)),
{
    let none = Seq::<char>::empty();
    let second = seq!['"'] + escaped(value) + seq!['"'];
    let line = seq!['"'] + escaped(key) + seq!['"'] + between + seq!['"'] + escaped(value)
        + seq!['"'];
    let behind = between + second;
    assert(line[0] == '"');
    assert(line.skip(1) =~= escaped(key) + seq!['"'] + behind);
    lemma_escaped(key, none, behind);
    assert(none + key =~= key);
    lemma_skip_blanks(between, second);
    assert(second[0] == '"');
    assert(second.skip(1) =~= escaped(value) + seq!['"'] + none);
    lemma_escaped(value, none, none);
    assert(none + value =~= value);
    assert(pieces_outside(none) =~= Seq::<Seq<char>>::empty());
    assert(pieces_outside(line)[0] == key);
    assert(pieces_outside(line)[1] == value);
}

proof fn lemma_skip_blanks(between: Seq<char>, rest: Seq<char>)
    requires
        !between.contains('"'),
    ensures
        pieces_outside(between + rest) == pieces_outside(rest),
    decreases between.len(),
{
    if between.len() == 0 {
        assert(between + rest =~= rest);
    } else {
        let tail = between.drop_first();
        assert(between.contains(between[0]));
        assert forall|c: char| tail.contains(c) implies between.contains(c) by {
            let i = choose|i: int| 0 <= i < tail.len() && tail[i] == c;
            assert(between[i + 1] == c);
        }
        lemma_skip_blanks(tail, rest);
        assert((between + rest).skip(1) =~= tail + rest);
    }
}

/// The line of a library in `libraryfolders.vdf`: the word `path`, and the directory, escaped, both
/// between quotes.
pub open spec fn path_line(lead: Seq<char>, between: Seq<char>, dir: Seq<char>) -> Seq<char> {
    lead + seq!['"', 'p', 'a', 't', 'h', '"'] + between + seq!['"'] + escaped(dir) + seq!['"']
}

/// A stretch without quotes and line feeds.
pub open spec fn is_gap(s: Seq<char>) -> bool {
    !s.contains('"') && !s.contains('\n')
}

proof fn lemma_escaped_line(s: Seq<char>, c: char)
    requires
        !s.contains(c),
        c != '\\',
    ensures
        !escaped(s).contains(c),
    decreases s.len(),
{
    if s.len() > 0 {
        let rest = s.drop_first();
        assert forall|d: char| rest.contains(d) implies s.contains(d) by {
            let i = choose|i: int| 0 <= i < rest.len() && rest[i] == d;
            assert(s[i + 1] == d);
        }
        lemma_escaped_line(rest, c);
        assert(s.contains(s[0]));
        let e = escaped(s);
        let tail = escaped(rest);
        if e.contains(c) {
            let i = choose|i: int| 0 <= i < e.len() && e[i] == c;
            let n = e.len() - tail.len();
            if i >= n {
                assert(tail[i - n] == c);
            }
        }
    }
}

proof fn lemma_path_line(lead: Seq<char>, between: Seq<char>, dir: Seq<char>)
    requires
        is_gap(lead),
        is_gap(between),
        !dir.contains('\n'),
    ensures
        key_value(path_line(lead, between, dir)) == Some(("path"@, dir)),
        !path_line(lead, between, dir).contains('\n'),
        path_line(lead, between, dir).len() > 0,
        path_line(lead, between, dir).last() == '"',
{
    reveal_strlit("path");
    let word = seq!['p', 'a', 't', 'h'];
    assert("path"@ =~= word);
    lemma_escaped_plain(word);
    let rest = seq!['"'] + escaped(word) + seq!['"'] + between + seq!['"'] + escaped(dir) + seq!['"'];
    let line = path_line(lead, between, dir);
    assert(line =~= lead + rest);
    lemma_skip_blanks(lead, rest);
    key_and_value_read_back(word, dir, between);
    lemma_escaped_line(dir, '\n');
    let e = escaped(dir);
    if line.contains('\n') {
        let i = choose|i: int| 0 <= i < line.len() && line[i] == '\n';
        let n = lead.len() as int;
        let m = n + 6 + between.len();
        if i < n {
            assert(lead[i] == '\n');
            assert(lead.contains('\n'));
        } else if i < n + 6 {
            assert(line[i] == seq!['"', 'p', 'a', 't', 'h', '"'][i - n]);
        } else if i < m {
            assert(between[i - n - 6] == '\n');
            assert(between.contains('\n'));
        } else if i > m && i < m + 1 + e.len() {
            assert(e[i - m - 1] == '\n');
            assert(e.contains('\n'));
        }
    }
}

proof fn lemma_escaped_plain(s: Seq<char>)
    requires
        forall|i: int| 0 <= i < s.len() ==> #[trigger] s[i] != '"' && s[i] != '\\',
    ensures
        escaped(s) == s,
    decreases s.len(),
{
    if s.len() > 0 {
        let rest = s.drop_first();
        assert forall|i: int| 0 <= i < rest.len() implies #[trigger] rest[i] != '"' && rest[i]
            != '\\' by {
            assert(rest[i] == s[i + 1]);
        }
        lemma_escaped_plain(rest);
        assert(s[0] != '"');
        assert(seq![s[0]] + rest =~= s);
    } else {
        assert(escaped(s) =~= s);
    }
}

proof fn lemma_paths_in(lines: Seq<Seq<char>>, k: int, dir: Seq<char>)
    requires
        0 <= k < lines.len(),
        key_value(lines[k]) == Some(("path"@, dir)),
    ensures
        paths_in(lines).contains(dir),
    decreases lines.len(),
{
    let front = paths_in(lines.drop_last());
    let all = paths_in(lines);
    if k < lines.len() - 1 {
        assert(lines.drop_last()[k] == lines[k]);
        lemma_paths_in(lines.drop_last(), k, dir);
        let i = choose|i: int| 0 <= i < front.len() && front[i] == dir;
        assert(all[i] == dir);
    } else {
        assert(all[front.len() as int] == dir);
    }
}

proof fn lemma_libraries_known(
    libs: Seq<Seq<char>>,
    more: Seq<Seq<char>>,
    w: SteamWorld,
    p: Seq<char>,
)
    requires
        knows_library(libs, p) || (more.contains(p) && (w.dirs)(seq![p])),
    ensures
        knows_library(with_libraries(libs, more, w), p),
    decreases more.len(),
{
    if more.len() > 0 {
        let front = with_libraries(libs, more.drop_last(), w);
        let all = with_libraries(libs, more, w);
        if knows_library(libs, p) || more.drop_last().contains(p) {
            lemma_libraries_known(libs, more.drop_last(), w, p);
            let i = choose|i: int| 0 <= i < front.len() && dir_key(#[trigger] front[i]) == dir_key(p);
            assert(all[i] == front[i]);
        } else {
            let k = choose|k: int| 0 <= k < more.len() && more[k] == p;
            assert(k == more.len() - 1) by {
                if k < more.len() - 1 {
                    assert(more.drop_last()[k] == p);
                }
            }
            if !knows_library(front, p) {
                assert(all[front.len() as int] == p);
            }
        }
    }
}

/// `libraryfolders.vdf` is believed: a directory that a line of it names, and that exists, is among the
/// libraries that are scanned, whatever else the file and the drives say.
pub proof fn listed_libraries_are_scanned(
    root: Seq<char>,
    windows: bool,
    w: SteamWorld,
    before: Seq<char>,
    lead: Seq<char>,
    between: Seq<char>,
    dir: Seq<char>,
    behind: Seq<char>,
)
    requires
        is_gap(lead),
        is_gap(between),
        !dir.contains('\n'),
        (w.files)(seq![root, "steamapps"@, "libraryfolders.vdf"@]) == Some(
            before + seq!['\n'] + path_line(lead, between, dir) + seq!['\n'] + behind,
        ),
        (w.dirs)(seq![dir]),
    ensures
        knows_library(root_libraries(root, w), dir),
        knows_library(all_libraries(Some(root), windows, w), dir),
{
    let line = path_line(lead, between, dir);
    let content = before + seq!['\n'] + line + seq!['\n'] + behind;
    lemma_path_line(lead, between, dir);
    crate::text::lines_stand_between_line_feeds(before, line, behind);
    let lines = lines_of(content);
    let k = choose|k: int| 0 <= k < lines.len() && lines[k] == line;
    lemma_paths_in(lines, k, dir);
    lemma_libraries_known(
        with_library(seq![], root, w),
        listed_libraries(root, w),
        w,
        dir,
    );
    lemma_libraries_known(
        root_libraries(root, w),
        if windows {
            drive_libraries(26, w)
        } else {
            seq![]
        },
        w,
        dir,
    );
}

/// The Steam directory is a library of its own, where it exists.
pub proof fn the_steam_directory_is_scanned(root: Seq<char>, windows: bool, w: SteamWorld)
    requires
        (w.dirs)(seq![root]),
    ensures
        knows_library(root_libraries(root, w), root),
        knows_library(all_libraries(Some(root), windows, w), root),
{
    let first = with_library(seq![], root, w);
    assert(first[0] == root);
    lemma_libraries_known(first, listed_libraries(root, w), w, root);
    lemma_libraries_known(
        root_libraries(root, w),
        if windows {
            drive_libraries(26, w)
        } else {
            seq![]
        },
        w,
        root,
    );
}

/// On Windows a library at the top of any drive, `A:` to `Z:`, is scanned as well, also where no Steam
/// directory was found.
pub proof fn drives_are_scanned(
    root: Option<Seq<char>>,
    w: SteamWorld,
    letter: char,
    lib: Seq<char>,
)
    requires
        'A' <= letter <= 'Z',
        lib == seq![letter] + ":\\SteamLibrary"@,
        (w.dirs)(seq![lib]),
        (w.dirs)(seq![lib, "steamapps"@]),
    ensures
        knows_library(all_libraries(root, true, w), lib),
{
    let k = letter as int - 65;
    assert((65 + k) as u8 as char == letter);
    assert(drive_library(k) == lib);
    lemma_drive(26, k, w);
    let first = match root {
        Some(r) => root_libraries(r, w),
        None => seq![],
    };
    lemma_libraries_known(first, drive_libraries(26, w), w, lib);
}

proof fn lemma_drive(n: nat, k: int, w: SteamWorld)
    requires
        0 <= k < n,
        (w.dirs)(seq![drive_library(k), "steamapps"@]),
    ensures
        drive_libraries(n, w).contains(drive_library(k)),
    decreases n,
{
    let front = drive_libraries((n - 1) as nat, w);
    let all = drive_libraries(n, w);
    if k < n - 1 {
        lemma_drive((n - 1) as nat, k, w);
        let i = choose|i: int| 0 <= i < front.len() && front[i] == drive_library(k);
        assert(all[i] == drive_library(k));
    } else {
        assert(all[front.len() as int] == drive_library(k));
    }
}

/// Nothing is scanned but directories that exist.
pub proof fn libraries_exist(root: Option<Seq<char>>, windows: bool, w: SteamWorld, i: int)
    requires
        0 <= i < all_libraries(root, windows, w).len(),
    ensures
        (w.dirs)(seq![all_libraries(root, windows, w)[i]]),
{
    let none = Seq::<Seq<char>>::empty();
    let first = match root {
        Some(r) => root_libraries(r, w),
        None => none,
    };
    if let Some(r) = root {
        lemma_only_existing(with_library(none, r, w), listed_libraries(r, w), w);
    }
    lemma_only_existing(
        first,
        if windows {
            drive_libraries(26, w)
        } else {
            none
        },
        w,
    );
}

proof fn lemma_only_existing(libs: Seq<Seq<char>>, more: Seq<Seq<char>>, w: SteamWorld)
    requires
        forall|i: int| 0 <= i < libs.len() ==> (w.dirs)(seq![#[trigger] libs[i]]),
    ensures
        forall|i: int|
            0 <= i < with_libraries(libs, more, w).len() ==> (w.dirs)(
                seq![#[trigger] with_libraries(libs, more, w)[i]],
            ),
    decreases more.len(),
{
    if more.len() > 0 {
        lemma_only_existing(libs, more.drop_last(), w);
        let front = with_libraries(libs, more.drop_last(), w);
        let all = with_libraries(libs, more, w);
        assert forall|i: int| 0 <= i < all.len() implies (w.dirs)(seq![#[trigger] all[i]]) by {
            if i < front.len() {
                assert(all[i] == front[i]);
            }
        }
    }
}

/// The file in the library describes the game: it is named like a manifest, and its text describes one.
pub open spec fn describes(
    w: SteamWorld,
    lib: Seq<char>,
    id: Seq<char>,
    names: Seq<Seq<char>>,
    game: AcfRow,
) -> bool {
    let name = "appmanifest_"@ + id + ".acf"@;
    &&& (w.names)(seq![lib, "steamapps"@]) == Some(names)
    &&& names.contains(name)
    &&& (w.files)(seq![lib, "steamapps"@, name]) is Some
    &&& game_in((w.files)(seq![lib, "steamapps"@, name])->0) == Some(game)
}

/// Every game that a manifest of a library describes is in the inventory, under its own name, with the
/// address that has Steam remove it and with the size that the manifest tells.
pub proof fn described_games_are_listed(
    libs: Seq<Seq<char>>,
    w: SteamWorld,
    apps: Seq<AppRow>,
    l: int,
    id: Seq<char>,
    names: Seq<Seq<char>>,
    game: AcfRow,
) -> (k: int)
    requires
        are_entries_of(apps, games_of_all(libs, w)),
        0 <= l < libs.len(),
        describes(w, libs[l], id, names, game),
    ensures
        0 <= k < apps.len(),
        apps[k].name == game.name,
        apps[k].source == Source::Steam,
        apps[k].uninstall_string == "steam://uninstall/"@ + game.appid,
        game.size_on_disk > 0 ==> apps[k].size_bytes == Some(game.size_on_disk),
        is_path_of(apps[k].location, seq![libs[l], "steamapps"@, "common"@, game.installdir]),
{
    let name = "appmanifest_"@ + id + ".acf"@;
    let n = choose|n: int| 0 <= n < names.len() && names[n] == name;
    let x = FoundGame { library: libs[l], game };
    assert(is_manifest(name)) by {
        let a = "appmanifest_"@;
        let b = ".acf"@;
        assert(name.subrange(0, a.len() as int) =~= a);
        assert(name.subrange(name.len() - b.len(), name.len() as int) =~= b);
    }
    assert(game_named(libs[l], name, w) == seq![x]);
    let m = lemma_game_named(libs[l], names, w, n, x);
    lemma_game_of(libs, w, l, m)
}

proof fn lemma_game_named(
    lib: Seq<char>,
    names: Seq<Seq<char>>,
    w: SteamWorld,
    n: int,
    x: FoundGame,
) -> (k: int)
    requires
        0 <= n < names.len(),
        game_named(lib, names[n], w) == seq![x],
    ensures
        0 <= k < games_named(lib, names, w).len(),
        games_named(lib, names, w)[k] == x,
    decreases names.len(),
{
    let front = games_named(lib, names.drop_last(), w);
    if n < names.len() - 1 {
        assert(names.drop_last()[n] == names[n]);
        lemma_game_named(lib, names.drop_last(), w, n, x)
    } else {
        front.len() as int
    }
}

proof fn lemma_game_of(libs: Seq<Seq<char>>, w: SteamWorld, l: int, m: int) -> (k: int)
    requires
        0 <= l < libs.len(),
        0 <= m < games_of(libs[l], w).len(),
    ensures
        0 <= k < games_of_all(libs, w).len(),
        games_of_all(libs, w)[k] == games_of(libs[l], w)[m],
    decreases libs.len(),
{
    let front = games_of_all(libs.drop_last(), w);
    if l < libs.len() - 1 {
        assert(libs.drop_last()[l] == libs[l]);
        lemma_game_of(libs.drop_last(), w, l, m)
    } else {
        front.len() + m
    }
}

/// Libraries are scanned one by one and in order, and so are the files of a library.
pub proof fn libraries_are_scanned_one_by_one(
    front: Seq<Seq<char>>,
    back: Seq<Seq<char>>,
    lib: Seq<char>,
    w: SteamWorld,
)
    ensures
        games_of_all(front + back, w) == games_of_all(front, w) + games_of_all(back, w),
        games_named(lib, front + back, w) == games_named(lib, front, w) + games_named(lib, back, w),
    decreases back.len(),
{
    if back.len() > 0 {
        libraries_are_scanned_one_by_one(front, back.drop_last(), lib, w);
        assert((front + back).drop_last() =~= front + back.drop_last());
        let a = games_of_all(front, w);
        let b = games_of_all(back.drop_last(), w);
        assert(a + b + games_of(back.last(), w) =~= a + (b + games_of(back.last(), w)));
        let c = games_named(lib, front, w);
        let d = games_named(lib, back.drop_last(), w);
        let e = game_named(lib, back.last(), w);
        assert(c + d + e =~= c + (d + e));
    } else {
        assert(front + back =~= front);
        assert(games_of_all(front, w) + games_of_all(back, w) =~= games_of_all(front, w));
        assert(games_named(lib, front, w) + games_named(lib, back, w) =~= games_named(
            lib,
            front,
            w,
        ));
    }
}

/// A line with that key and value is among the lines, and no line gives the key another value.
pub open spec fn says(lines: Seq<Seq<char>>, key: Seq<char>, value: Seq<char>) -> bool {
    &&& exists|i: int| 0 <= i < lines.len() && key_value(#[trigger] lines[i]) == Some((key, value))
    &&& forall|i: int|
        0 <= i < lines.len() ==> (key_value(#[trigger] lines[i]) matches Some((k, v)) ==> k == key
            ==> v == value)
}

/// A manifest is read wherever its lines stand: what it says of the id, the name, the directory, the size
/// and the time of the last update of a game is what is known of the game.
pub proof fn manifests_are_read_line_by_line(
    lines: Seq<Seq<char>>,
    id: Seq<char>,
    name: Seq<char>,
    dir: Seq<char>,
    size: Seq<char>,
    updated: Seq<char>,
)
    requires
        says(lines, "appid"@, id),
        says(lines, "name"@, name),
        says(lines, "installdir"@, dir),
        says(lines, "SizeOnDisk"@, size),
        says(lines, "LastUpdated"@, updated),
    ensures
        with_acf_lines(lines) == (AcfRow {
            appid: id,
            name,
            installdir: dir,
            size_on_disk: match parsed_number(size, u64::MAX as nat) {
                Some(n) => n as u64,
                None => 0,
            },
            last_updated: match parsed_number(updated, u64::MAX as nat) {
                Some(n) => n as u64,
                None => 0,
            },
        }),
{
    reveal_strlit("appid");
    reveal_strlit("name");
    reveal_strlit("installdir");
    reveal_strlit("SizeOnDisk");
    reveal_strlit("LastUpdated");
    assert("appid"@.len() == 5 && "name"@.len() == 4 && "installdir"@.len() == 10
        && "SizeOnDisk"@.len() == 10 && "LastUpdated"@.len() == 11);
    assert("installdir"@[0] == 'i' && "SizeOnDisk"@[0] == 'S');
    lemma_fields(lines, id, name, dir, size, updated);
    let a = choose|i: int| 0 <= i < lines.len() && key_value(#[trigger] lines[i]) == Some(("appid"@, id));
    let b = choose|i: int| 0 <= i < lines.len() && key_value(#[trigger] lines[i]) == Some(("name"@, name));
    let c = choose|i: int|
        0 <= i < lines.len() && key_value(#[trigger] lines[i]) == Some(("installdir"@, dir));
    let d = choose|i: int|
        0 <= i < lines.len() && key_value(#[trigger] lines[i]) == Some(("SizeOnDisk"@, size));
    let e = choose|i: int|
        0 <= i < lines.len() && key_value(#[trigger] lines[i]) == Some(("LastUpdated"@, updated));
    let g = with_acf_lines(lines);
    lemma_line_counts(lines, a);
    lemma_line_counts(lines, b);
    lemma_line_counts(lines, c);
    assert(g.appid =~= id && g.name =~= name && g.installdir =~= dir);
    assert(key_value(lines[d]) == Some(("SizeOnDisk"@, size)));
    assert(key_value(lines[e]) == Some(("LastUpdated"@, updated)));
}

/// No line gives the key another value.
spec fn agrees(lines: Seq<Seq<char>>, key: Seq<char>, value: Seq<char>) -> bool {
    forall|i: int|
        0 <= i < lines.len() ==> (key_value(#[trigger] lines[i]) matches Some((k, v)) ==> k == key
            ==> v == value)
}

/// A field is what the lines say, or was never told.
proof fn lemma_fields(
    lines: Seq<Seq<char>>,
    id: Seq<char>,
    name: Seq<char>,
    dir: Seq<char>,
    size: Seq<char>,
    updated: Seq<char>,
)
    requires
        agrees(lines, "appid"@, id),
        agrees(lines, "name"@, name),
        agrees(lines, "installdir"@, dir),
        agrees(lines, "SizeOnDisk"@, size),
        agrees(lines, "LastUpdated"@, updated),
    ensures
        ({
            let g = with_acf_lines(lines);
            &&& g.appid == id || g.appid.len() == 0
            &&& g.name == name || g.name.len() == 0
            &&& g.installdir == dir || g.installdir.len() == 0
            &&& g.size_on_disk == number_or_zero(size) || forall|i: int|
                0 <= i < lines.len() ==> key_value(#[trigger] lines[i]) != Some(
                    ("SizeOnDisk"@, size),
                )
            &&& g.last_updated == number_or_zero(updated) || forall|i: int|
                0 <= i < lines.len() ==> key_value(#[trigger] lines[i]) != Some(
                    ("LastUpdated"@, updated),
                )
        }),
    decreases lines.len(),
{
    reveal_strlit("appid");
    reveal_strlit("name");
    reveal_strlit("installdir");
    reveal_strlit("SizeOnDisk");
    reveal_strlit("LastUpdated");
    assert("appid"@.len() == 5 && "name"@.len() == 4 && "installdir"@.len() == 10
        && "SizeOnDisk"@.len() == 10 && "LastUpdated"@.len() == 11);
    assert("installdir"@[0] == 'i' && "SizeOnDisk"@[0] == 'S');
    if lines.len() > 0 {
        let front = lines.drop_last();
        assert forall|i: int| 0 <= i < front.len() implies #[trigger] front[i] == lines[i] by {}
        lemma_fields(front, id, name, dir, size, updated);
        let last = lines[lines.len() - 1];
        assert(last == lines.last());
        let g = with_acf_lines(lines);
        let f = with_acf_lines(front);
        if g.size_on_disk != number_or_zero(size) {
            assert forall|i: int| 0 <= i < lines.len() implies key_value(#[trigger] lines[i]) != Some(
                ("SizeOnDisk"@, size),
            ) by {
                if i < front.len() {
                    assert(lines[i] == front[i]);
                }
            }
        }
        if g.last_updated != number_or_zero(updated) {
            assert forall|i: int| 0 <= i < lines.len() implies key_value(#[trigger] lines[i]) != Some(
                ("LastUpdated"@, updated),
            ) by {
                if i < front.len() {
                    assert(lines[i] == front[i]);
                }
            }
        }
    }
}

/// A field that a line tells is told.
proof fn lemma_line_counts(lines: Seq<Seq<char>>, i: int)
    requires
        0 <= i < lines.len(),
    ensures
        ({
            let g = with_acf_lines(lines);
            key_value(lines[i]) matches Some((k, v)) ==> v.len() > 0 ==> {
                &&& k == "appid"@ ==> g.appid.len() > 0
                &&& k == "name"@ ==> g.name.len() > 0
                &&& k == "installdir"@ ==> g.installdir.len() > 0
            }
        }),
    decreases lines.len(),
{
    reveal_strlit("appid");
    reveal_strlit("name");
    reveal_strlit("installdir");
    assert("appid"@.len() == 5 && "name"@.len() == 4 && "installdir"@.len() == 10);
    let front = lines.drop_last();
    if i < lines.len() - 1 {
        assert(front[i] == lines[i]);
        lemma_line_counts(front, i);
    }
}

/// No library is scanned twice, whatever its case and separators.
pub proof fn libraries_are_distinct(root: Option<Seq<char>>, windows: bool, w: SteamWorld)
    ensures
        forall|i: int, j: int|
            0 <= i < j < all_libraries(root, windows, w).len() ==> dir_key(
                #[trigger] all_libraries(root, windows, w)[i],
            ) != dir_key(#[trigger] all_libraries(root, windows, w)[j]),
{
    let none = Seq::<Seq<char>>::empty();
    if let Some(r) = root {
        lemma_add_distinct(with_library(none, r, w), listed_libraries(r, w), w);
        lemma_add_distinct(
            root_libraries(r, w),
            if windows {
                drive_libraries(26, w)
            } else {
                none
            },
            w,
        );
    } else {
        lemma_add_distinct(
            none,
            if windows {
                drive_libraries(26, w)
            } else {
                none
            },
            w,
        );
    }
}

spec fn distinct_libraries(libs: Seq<Seq<char>>) -> bool {
    forall|i: int, j: int|
        0 <= i < j < libs.len() ==> dir_key(#[trigger] libs[i]) != dir_key(#[trigger] libs[j])
}

proof fn lemma_add_distinct(libs: Seq<Seq<char>>, more: Seq<Seq<char>>, w: SteamWorld)
    requires
        distinct_libraries(libs),
    ensures
        distinct_libraries(with_libraries(libs, more, w)),
    decreases more.len(),
{
    if more.len() > 0 {
        lemma_add_distinct(libs, more.drop_last(), w);
        let front = with_libraries(libs, more.drop_last(), w);
        let all = with_libraries(libs, more, w);
        assert forall|i: int, j: int| 0 <= i < j < all.len() implies dir_key(#[trigger] all[i])
            != dir_key(#[trigger] all[j]) by {
            assert(all[i] == front[i]);
            if j < front.len() {
                assert(all[j] == front[j]);
            }
        }
    }
}

/// A thin entry of the registry stands for the game whose number its command hands to Steam, in any
/// spelling, or for the one that its name tells.
pub proof fn games_are_told_by_their_number(
    front: Seq<char>,
    address: Seq<char>,
    id: Seq<char>,
    back: Seq<char>,
    name: Seq<char>,
    command: Seq<char>,
)
    requires
        id.len() > 0,
        all_digits(id),
        back.len() > 0 ==> !is_digit(back[0]),
    ensures
        ascii_lower(address) == "steam://uninstall/"@ && !contains(
            ascii_lower(front + address).drop_last(),
            "steam://uninstall/"@,
        ) && command == front + address + id + back ==> app_id(name, command) == Some(id),
        !contains(ascii_lower(command), "steam://uninstall/"@) && name == "Steam App "@ + id
            ==> app_id(name, command) == Some(id),
{
    let p = "steam://uninstall/"@;
    if ascii_lower(address) == p && !contains(ascii_lower(front + address).drop_last(), p)
        && command == front + address + id + back {
        let l = ascii_lower(command);
        let n = front.len() as int;
        assert(address.len() == p.len());
        assert(l.subrange(n, n + p.len()) =~= ascii_lower(address));
        assert(crate::text::occurs_at(l, p, n));
        let early = ascii_lower(front + address).drop_last();
        reveal_strlit("steam://uninstall/");
        assert forall|j: int| 0 <= j < n implies !#[trigger] crate::text::occurs_at(l, p, j) by {
            if crate::text::occurs_at(l, p, j) {
                assert(early.subrange(j, j + p.len()) =~= l.subrange(j, j + p.len()));
                assert(crate::text::occurs_at(early, p, j));
            }
        }
        lemma_place_of(l, p, n);
        let rest = command.skip(n + p.len());
        assert(rest =~= id + back);
        let f = |c: char| is_digit(c);
        assert forall|j: int| 0 <= j < id.len() implies f(#[trigger] rest[j]) by {
            assert(rest[j] == id[j]);
        }
        if back.len() > 0 {
            assert(rest[id.len() as int] == back[0]);
        }
        crate::text::lemma_run_len(rest, f, id.len() as int);
        assert(rest.take(id.len() as int) =~= id);
    }
    if !contains(ascii_lower(command), p) && name == "Steam App "@ + id {
        let q = "Steam App "@;
        assert(name.subrange(0, q.len() as int) =~= q);
        assert(name.skip(q.len() as int) =~= id);
    }
}

/// The directory that the user names is taken for Steam's where it exists; on Windows the registry comes
/// next, and then the usual place; what does not exist is passed over.
pub proof fn the_named_steam_directory_wins(
    env: Env,
    windows: bool,
    registry: Seq<char>,
    w: SteamWorld,
    text: Option<Seq<char>>,
)
    requires
        is_root(text, root_place(env, windows, registry, w)),
    ensures
        env("DPAN_STEAM_DIR"@) matches Some(d) ==> (w.dirs)(seq![d]) ==> text == Some(d),
        (env("DPAN_STEAM_DIR"@) matches Some(d) ==> !(w.dirs)(seq![d])) && windows && registry.len()
            > 0 && (w.dirs)(seq![registry]) ==> text == Some(registry),
        (env("DPAN_STEAM_DIR"@) matches Some(d) ==> !(w.dirs)(seq![d])) && !windows ==> text is None,
        (env("DPAN_STEAM_DIR"@) matches Some(d) ==> !(w.dirs)(seq![d])) && windows && (registry.len()
            == 0 || !(w.dirs)(seq![registry])) ==> (match env("ProgramFiles(x86)"@) {
            Some(p) => if (w.dirs)(seq![p, "Steam"@]) {
                text is Some && is_path_of(text->0, seq![p, "Steam"@])
            } else {
                text is None
            },
            None => text is None,
        }),
{
}

/// Only manifests are read for games: a file that is not named like one, cannot be read, or describes no
/// game adds none.
pub proof fn other_files_are_no_games(lib: Seq<char>, names: Seq<Seq<char>>, name: Seq<char>, w: SteamWorld)
    ensures
        !has_prefix(name, "appmanifest_"@) || !has_suffix(name, ".acf"@) || (w.files)(
            seq![lib, "steamapps"@, name],
        ) is None ==> games_named(lib, names.push(name), w) == games_named(lib, names, w),
{
    assert(names.push(name).drop_last() =~= names);
    let front = games_named(lib, names, w);
    assert(front + Seq::<FoundGame>::empty() =~= front);
}

} // verus!
