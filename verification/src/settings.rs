//! Preferences that outlive a session.
//!
//! The file is a small key and value format. A value that is broken or was edited by hand falls back
//! to what was there before.

use vstd::prelude::*;
use vstd::slice::slice_subrange;

use crate::paths::path_below;
use crate::safety::{is_place, Env};
use crate::targets::{
    all_categories, answers, answers_all, category_named, category_words_name_their_category, Category,
};
use crate::text::{
    ascii_lower, chars_of, find_char, has_prefix, is_space, join, joined, lemma_lines_step,
    lemma_nothing_to_trim, lemma_run_len, lemma_split_joined, lines, lines_of, lower_ascii,
    no_texts, other_than, position, push_text, rows, same_str, split_char, split_on, starts_with, str_texts,
    string_of, text_opt, texts, trim, trimmed,
};

verus! {

/// What the user prefers.
pub struct Settings {
    /// The categories that are cleaned.
    pub categories: Vec<Category>,
    pub recycle_bin: bool,
    pub confirm_clean: bool,
    pub color: bool,
}

/// Settings as mathematical data.
pub struct SettingsRow {
    pub categories: Seq<Category>,
    pub recycle_bin: bool,
    pub confirm_clean: bool,
    pub color: bool,
}

impl View for Settings {
    type V = SettingsRow;

    open spec fn view(&self) -> SettingsRow {
        SettingsRow {
            categories: self.categories@,
            recycle_bin: self.recycle_bin,
            confirm_clean: self.confirm_clean,
            color: self.color,
        }
    }
}

/// The settings of a user who has chosen nothing.
pub open spec fn default_settings() -> SettingsRow {
    SettingsRow {
        categories: all_categories(),
        recycle_bin: false,
        confirm_clean: true,
        color: true,
    }
}

impl Default for Settings {
    fn default() -> (r: Settings)
        ensures
            r@ == default_settings(),
    {
        let categories: Vec<Category> = vec![
            Category::Temp,
            Category::System,
            Category::Browser,
            Category::Dev,
            Category::Apps,
        ];
        assert(categories@ =~= all_categories());
        Settings { categories, recycle_bin: false, confirm_clean: true, color: true }
    }
}

impl Clone for Settings {
    fn clone(&self) -> (r: Settings)
        ensures
            r@ == self@,
    {
        let mut categories: Vec<Category> = Vec::new();
        for i in 0..self.categories.len()
            invariant
                categories@ == self.categories@.take(i as int),
        {
            categories.push(self.categories[i]);
            assert(categories@ =~= self.categories@.take(i + 1));
        }
        assert(categories@ =~= self.categories@);
        Settings {
            categories,
            recycle_bin: self.recycle_bin,
            confirm_clean: self.confirm_clean,
            color: self.color,
        }
    }
}

// ---------------------------------------------------------------------------
// Reading
// ---------------------------------------------------------------------------

/// The truth value that a text writes.
pub open spec fn bool_named(s: Seq<char>) -> Option<bool> {
    let v = ascii_lower(trimmed(s));
    if v == "true"@ || v == "yes"@ || v == "1"@ || v == "on"@ {
        Some(true)
    } else if v == "false"@ || v == "no"@ || v == "0"@ || v == "off"@ {
        Some(false)
    } else {
        None
    }
}

/// The value, or what was there before where there is none.
pub open spec fn bool_or(o: Option<bool>, before: bool) -> bool {
    match o {
        Some(v) => v,
        None => before,
    }
}

/// The categories that a list of words names, each once; words that name none are passed over.
pub open spec fn categories_in(items: Seq<Seq<char>>) -> Seq<Category>
    decreases items.len(),
{
    if items.len() == 0 {
        seq![]
    } else {
        let front = categories_in(items.drop_last());
        match category_named(trimmed(items.last())) {
            Some(c) => if front.contains(c) {
                front
            } else {
                front.push(c)
            },
            None => front,
        }
    }
}

/// The categories that a value sets: none for an empty value, and what was there before where no
/// word names a category.
pub open spec fn categories_set(value: Seq<char>, before: Seq<Category>) -> Seq<Category> {
    let named = categories_in(split_on(value, ','));
    if trimmed(value).len() == 0 {
        seq![]
    } else if named.len() > 0 {
        named
    } else {
        before
    }
}

/// The settings after a key was given a value.
pub open spec fn with_value(s: SettingsRow, key: Seq<char>, value: Seq<char>) -> SettingsRow {
    if key == "categories"@ {
        SettingsRow { categories: categories_set(value, s.categories), ..s }
    } else if key == "recycle_bin"@ {
        SettingsRow { recycle_bin: bool_or(bool_named(value), s.recycle_bin), ..s }
    } else if key == "confirm_clean"@ {
        SettingsRow { confirm_clean: bool_or(bool_named(value), s.confirm_clean), ..s }
    } else if key == "color"@ {
        SettingsRow { color: bool_or(bool_named(value), s.color), ..s }
    } else {
        s
    }
}

/// The settings after a line was read. Blank lines, comments and lines without `=` say nothing.
pub open spec fn with_setting(s: SettingsRow, line: Seq<char>) -> SettingsRow {
    let l = trimmed(line);
    let n = position(l, '=');
    if l.len() == 0 || has_prefix(l, "#"@) || n >= l.len() {
        s
    } else {
        with_value(s, trimmed(l.take(n)), l.skip(n + 1))
    }
}

/// The settings after a list of lines was read.
pub open spec fn with_settings(s: SettingsRow, lines: Seq<Seq<char>>) -> SettingsRow
    decreases lines.len(),
{
    if lines.len() == 0 {
        s
    } else {
        with_setting(with_settings(s, lines.drop_last()), lines.last())
    }
}

/// The settings that the text of a settings file says, starting from the default.
pub open spec fn settings_in(content: Seq<char>) -> SettingsRow {
    with_settings(default_settings(), lines_of(content))
}

fn parse_bool(value: &[char]) -> (r: Option<bool>)
    ensures
        r == bool_named(value@),
{
    let v = lower_ascii(trim(value));
    let s = v.as_slice();
    if same_str(s, "true") || same_str(s, "yes") || same_str(s, "1") || same_str(s, "on") {
        Some(true)
    } else if same_str(s, "false") || same_str(s, "no") || same_str(s, "0") || same_str(s, "off") {
        Some(false)
    } else {
        None
    }
}

/// Whether a list holds a category.
pub fn has_category(list: &Vec<Category>, c: Category) -> (r: bool)
    ensures
        r == list@.contains(c),
{
    for i in 0..list.len()
        invariant
            forall|j: int| 0 <= j < i ==> list@[j] != c,
    {
        if list[i] == c {
            assert(list@.contains(list@[i as int]));
            return true;
        }
    }
    false
}

fn parse_category_list(value: &[char]) -> (r: Vec<Category>)
    ensures
        r@ == categories_in(split_on(value@, ',')),
{
    let items = split_char(value, ',');
    let ghost all = rows(items@);
    let mut out: Vec<Category> = Vec::new();
    assert(all.take(0) =~= Seq::<Seq<char>>::empty());
    for i in 0..items.len()
        invariant
            all == rows(items@),
            out@ == categories_in(all.take(i as int)),
    {
        assert(all.take(i + 1).drop_last() =~= all.take(i as int));
        assert(all.take(i + 1).last() == items@[i as int]@);
        let word = string_of(trim(items[i].as_slice()));
        if let Some(c) = Category::parse(word.as_str()) {
            if !has_category(&out, c) {
                out.push(c);
            }
        }
    }
    assert(all.take(all.len() as int) =~= all);
    out
}

impl Settings {
    fn set_value(&mut self, key: &[char], value: &[char])
        ensures
            final(self)@ == with_value(old(self)@, key@, value@),
    {
        if same_str(key, "categories") {
            let named = parse_category_list(value);
            if trim(value).len() == 0 {
                self.categories = Vec::new();
            } else if named.len() > 0 {
                self.categories = named;
            }
        } else if same_str(key, "recycle_bin") {
            if let Some(v) = parse_bool(value) {
                self.recycle_bin = v;
            }
        } else if same_str(key, "confirm_clean") {
            if let Some(v) = parse_bool(value) {
                self.confirm_clean = v;
            }
        } else if same_str(key, "color") {
            if let Some(v) = parse_bool(value) {
                self.color = v;
            }
        }
    }

    fn read_line(&mut self, line: &[char])
        ensures
            final(self)@ == with_setting(old(self)@, line@),
    {
        let l = trim(line);
        if l.len() == 0 || starts_with(l, "#") {
            return;
        }
        let n = find_char(l, '=');
        if n >= l.len() {
            return;
        }
        let key = slice_subrange(l, 0, n);
        let value = slice_subrange(l, n + 1, l.len());
        assert(key@ =~= l@.take(n as int));
        assert(value@ =~= l@.skip(n + 1));
        self.set_value(trim(key), value);
    }

    /// The settings that the text of the settings file says; without a file, the default.
    pub fn load(content: Option<&str>) -> (r: Settings)
        ensures
            r@ == match content {
                Some(text) => settings_in(text@),
                None => default_settings(),
            },
    {
        let mut settings = Settings::default();
        let text = match content {
            Some(text) => text,
            None => {
                return settings;
            },
        };
        let all = lines(chars_of(text).as_slice());
        let ghost ls = rows(all@);
        assert(ls.take(0) =~= Seq::<Seq<char>>::empty());
        for i in 0..all.len()
            invariant
                ls == rows(all@),
                settings@ == with_settings(default_settings(), ls.take(i as int)),
        {
            assert(ls.take(i + 1).drop_last() =~= ls.take(i as int));
            assert(ls.take(i + 1).last() == all@[i as int]@);
            settings.read_line(all[i].as_slice());
        }
        assert(ls.take(ls.len() as int) =~= ls);
        settings
    }
}

// ---------------------------------------------------------------------------
// Writing
// ---------------------------------------------------------------------------

/// The words of a list of categories.
pub open spec fn keys_of(categories: Seq<Category>) -> Seq<Seq<char>> {
    categories.map_values(|c: Category| c.key_text())
}

/// `true` or `false`.
pub open spec fn bool_text(b: bool) -> Seq<char> {
    if b {
        "true"@
    } else {
        "false"@
    }
}

/// The text of the settings file.
pub open spec fn settings_text(s: SettingsRow) -> Seq<char> {
    "categories="@ + joined(keys_of(s.categories), ","@) + "\n"@ + "recycle_bin="@ + bool_text(
        s.recycle_bin,
    ) + "\n"@ + "confirm_clean="@ + bool_text(s.confirm_clean) + "\n"@ + "color="@ + bool_text(
        s.color,
    ) + "\n"@
}

/// `true` or `false`.
pub fn bool_word(b: bool) -> (r: &'static str)
    ensures
        r@ == bool_text(b),
{
    if b {
        "true"
    } else {
        "false"
    }
}

/// The words of a list of categories, with commas between them.
pub fn category_words(categories: &Vec<Category>, sep: &str) -> (r: String)
    ensures
        r@ == joined(keys_of(categories@), sep@),
{
    let mut words = no_texts();
    let ghost all = keys_of(categories@);
    assert(texts(words@) =~= all.take(0));
    for i in 0..categories.len()
        invariant
            all == keys_of(categories@),
            texts(words@) == all.take(i as int),
    {
        push_text(&mut words, categories[i].key().to_string());
        assert(texts(words@) =~= all.take(i + 1));
    }
    assert(all.take(all.len() as int) =~= all);
    join(&words, sep)
}

impl Settings {
    /// The text of the settings file.
    pub fn render(&self) -> (r: String)
        ensures
            r@ == settings_text(self@),
    {
        let mut out = "categories=".to_string();
        out.append(category_words(&self.categories, ",").as_str());
        out.append("\n");
        out.append("recycle_bin=");
        out.append(bool_word(self.recycle_bin));
        out.append("\n");
        out.append("confirm_clean=");
        out.append(bool_word(self.confirm_clean));
        out.append("\n");
        out.append("color=");
        out.append(bool_word(self.color));
        out.append("\n");
        out
    }
}

/// The pieces of the path of the settings file.
pub open spec fn settings_pieces(env: Env) -> Option<Seq<Seq<char>>> {
    match env("APPDATA"@) {
        Some(dir) => Some(seq![dir, "dustpan"@, "settings.conf"@]),
        None => match env("HOME"@) {
            Some(home) => Some(seq![home, ".config"@, "dustpan"@, "settings.conf"@]),
            None => None,
        },
    }
}

/// `%APPDATA%\dustpan\settings.conf`, or `~/.config/dustpan/settings.conf`.
pub fn path<F: Fn(&str) -> Option<String>>(lookup: &F) -> (r: Option<String>)
    requires
        answers_all(*lookup),
    ensures
        forall|env: Env|
            answers(*lookup, env) ==> is_place(text_opt(r), #[trigger] settings_pieces(env)),
{
    let appdata = lookup("APPDATA");
    if let Some(dir) = &appdata {
        let names: [&str; 2] = ["dustpan", "settings.conf"];
        let p = path_below(dir.as_str(), names.as_slice());
        assert(seq![dir@] + str_texts(names@) =~= seq![dir@, "dustpan"@, "settings.conf"@]);
        return Some(p);
    }
    let home = lookup("HOME");
    if let Some(h) = &home {
        let names: [&str; 3] = [".config", "dustpan", "settings.conf"];
        let p = path_below(h.as_str(), names.as_slice());
        assert(seq![h@] + str_texts(names@) =~= seq![
            h@,
            ".config"@,
            "dustpan"@,
            "settings.conf"@,
        ]);
        return Some(p);
    }
    None
}

// ---------------------------------------------------------------------------
// Laws
// ---------------------------------------------------------------------------

/// Whatever a settings file says, no category is in the list twice.
pub proof fn loaded_categories_are_distinct(content: Seq<char>)
    ensures
        settings_in(content).categories.no_duplicates(),
{
    lemma_lines_keep_distinct(default_settings(), lines_of(content));
}

proof fn lemma_categories_distinct(items: Seq<Seq<char>>)
    ensures
        categories_in(items).no_duplicates(),
    decreases items.len(),
{
    if items.len() > 0 {
        lemma_categories_distinct(items.drop_last());
        let front = categories_in(items.drop_last());
        let all = categories_in(items);
        assert forall|i: int, j: int| 0 <= i < all.len() && 0 <= j < all.len() && i != j implies all[i]
            != all[j] by {
            if all.len() > front.len() {
                if i == front.len() {
                    assert(front.contains(front[j]));
                }
                if j == front.len() {
                    assert(front.contains(front[i]));
                }
            }
        }
    }
}

proof fn lemma_lines_keep_distinct(s: SettingsRow, lines: Seq<Seq<char>>)
    requires
        s.categories.no_duplicates(),
    ensures
        with_settings(s, lines).categories.no_duplicates(),
    decreases lines.len(),
{
    if lines.len() > 0 {
        lemma_lines_keep_distinct(s, lines.drop_last());
        let l = trimmed(lines.last());
        lemma_categories_distinct(split_on(l.skip(position(l, '=') + 1), ','));
    }
}

/// A line that sets a key, as the settings file writes it, sets it.
proof fn lemma_setting_line(s: SettingsRow, key: Seq<char>, value: Seq<char>)
    requires
        key.len() > 0,
        !is_space(key[0]),
        !is_space(key.last()),
        key[0] != '#',
        !key.contains('='),
        value.len() > 0 ==> !is_space(value.last()),
    ensures
        with_setting(s, key + seq!['='] + value) == with_value(s, key, value),
{
    let l = key + seq!['='] + value;
    lemma_nothing_to_trim(l);
    lemma_nothing_to_trim(key);
    assert forall|j: int| 0 <= j < key.len() implies other_than('=')(#[trigger] l[j]) by {
        assert(key.contains(key[j]));
    }
    lemma_run_len(l, other_than('='), key.len() as int);
    assert(l.take(key.len() as int) =~= key);
    assert(l.skip(key.len() as int + 1) =~= value);
    reveal_strlit("#");
    if has_prefix(l, "#"@) {
        assert(l.subrange(0, 1)[0] == "#"@[0]);
    }
}

proof fn lemma_bool_reads_back(b: bool)
    ensures
        bool_named(bool_text(b)) == Some(b),
        bool_text(b).len() > 0,
        !is_space(bool_text(b).last()),
        !bool_text(b).contains('\n'),
        bool_text(b).last() != '\r',
{
    reveal_strlit("true");
    reveal_strlit("false");
    reveal_strlit("yes");
    reveal_strlit("no");
    reveal_strlit("1");
    reveal_strlit("0");
    reveal_strlit("on");
    reveal_strlit("off");
    lemma_nothing_to_trim(bool_text(b));
    assert(ascii_lower(bool_text(b)) =~= bool_text(b));
    assert("false"@[0] == 'f' && "true"@[0] == 't' && "yes"@[0] == 'y' && "1"@[0] == '1'
        && "on"@[0] == 'o');
}

proof fn lemma_key_texts(c: Category)
    ensures
        c.key_text().len() > 0,
        !c.key_text().contains(','),
        !c.key_text().contains('\n'),
        !is_space(c.key_text()[0]),
        !is_space(c.key_text().last()),
        c.key_text().last() != '\r',
{
    reveal_strlit("temp");
    reveal_strlit("system");
    reveal_strlit("browser");
    reveal_strlit("dev");
    reveal_strlit("apps");
}

proof fn lemma_categories_read_back(cs: Seq<Category>)
    requires
        cs.no_duplicates(),
    ensures
        categories_in(keys_of(cs)) == cs,
    decreases cs.len(),
{
    if cs.len() > 0 {
        let c = cs.last();
        let front = cs.drop_last();
        lemma_categories_read_back(front);
        assert(keys_of(cs).drop_last() =~= keys_of(front));
        assert(keys_of(cs).last() == c.key_text());
        lemma_key_texts(c);
        lemma_nothing_to_trim(c.key_text());
        category_words_name_their_category(c);
        assert(!front.contains(c)) by {
            if front.contains(c) {
                let i = choose|i: int| 0 <= i < front.len() && front[i] == c;
                assert(cs[i] == cs[cs.len() - 1]);
            }
        }
        assert(front.push(c) =~= cs);
    }
}

/// The joined words of categories are on one line and have nothing to trim at their end.
proof fn lemma_joined_keys(cs: Seq<Category>)
    ensures
        !joined(keys_of(cs), seq![',']).contains('\n'),
        cs.len() > 0 ==> {
            let j = joined(keys_of(cs), seq![',']);
            j.len() > 0 && !is_space(j[0]) && !is_space(j.last()) && j.last() != '\r'
        },
    decreases cs.len(),
{
    if cs.len() > 0 {
        let c = cs.last();
        let front = cs.drop_last();
        let k = keys_of(cs);
        assert(k.drop_last() =~= keys_of(front));
        assert(k.last() == c.key_text());
        lemma_key_texts(c);
        lemma_joined_keys(front);
        let j = joined(k, seq![',']);
        if cs.len() == 1 {
            assert(j == c.key_text());
        } else {
            let f = joined(keys_of(front), seq![',']);
            assert(j == f + seq![','] + c.key_text());
            assert forall|i: int| 0 <= i < j.len() implies j[i] != '\n' by {
                if i < f.len() {
                    assert(f.contains(f[i]));
                } else if i > f.len() {
                    assert(c.key_text().contains(c.key_text()[i - f.len() - 1]));
                }
            }
            assert(j.last() == c.key_text().last());
            assert(j[0] == f[0]);
        }
    }
}

proof fn lemma_no_feed(key: Seq<char>, value: Seq<char>)
    requires
        !key.contains('\n'),
        !value.contains('\n'),
        value.len() > 0 ==> value.last() != '\r',
    ensures
        !(key + seq!['='] + value).contains('\n'),
        (key + seq!['='] + value).last() != '\r',
{
    let l = key + seq!['='] + value;
    assert forall|i: int| 0 <= i < l.len() implies l[i] != '\n' by {
        if i < key.len() {
            assert(key.contains(key[i]));
        } else if i > key.len() {
            assert(value.contains(value[i - key.len() - 1]));
        }
    }
}

/// What is written to the settings file reads back as the same settings, as long as no category is
/// in the list twice.
pub proof fn settings_read_back(s: SettingsRow)
    requires
        s.categories.no_duplicates(),
    ensures
        settings_in(settings_text(s)) == s,
{
    reveal_strlit("categories=");
    reveal_strlit("recycle_bin=");
    reveal_strlit("confirm_clean=");
    reveal_strlit("color=");
    reveal_strlit("categories");
    reveal_strlit("recycle_bin");
    reveal_strlit("confirm_clean");
    reveal_strlit("color");
    reveal_strlit("\n");
    reveal_strlit(",");
    let (k1, k2, k3, k4) = ("categories"@, "recycle_bin"@, "confirm_clean"@, "color"@);
    assert("categories="@ =~= k1 + seq!['=']);
    assert("recycle_bin="@ =~= k2 + seq!['=']);
    assert("confirm_clean="@ =~= k3 + seq!['=']);
    assert("color="@ =~= k4 + seq!['=']);
    assert("\n"@ =~= seq!['\n']);
    assert(","@ =~= seq![',']);
    let v1 = joined(keys_of(s.categories), seq![',']);
    let v2 = bool_text(s.recycle_bin);
    let v3 = bool_text(s.confirm_clean);
    let v4 = bool_text(s.color);
    lemma_joined_keys(s.categories);
    lemma_bool_reads_back(s.recycle_bin);
    lemma_bool_reads_back(s.confirm_clean);
    lemma_bool_reads_back(s.color);
    let l1 = k1 + seq!['='] + v1;
    let l2 = k2 + seq!['='] + v2;
    let l3 = k3 + seq!['='] + v3;
    let l4 = k4 + seq!['='] + v4;
    let none = Seq::<char>::empty();
    let t4 = l4 + seq!['\n'] + none;
    let t3 = l3 + seq!['\n'] + t4;
    let t2 = l2 + seq!['\n'] + t3;
    let t1 = l1 + seq!['\n'] + t2;
    assert(settings_text(s) =~= t1);
    assert(s.categories.len() == 0 ==> v1 =~= none);
    lemma_no_feed(k1, v1);
    lemma_no_feed(k2, v2);
    lemma_no_feed(k3, v3);
    lemma_no_feed(k4, v4);
    lemma_lines_step(l4, none);
    lemma_lines_step(l3, t4);
    lemma_lines_step(l2, t3);
    lemma_lines_step(l1, t2);
    assert(lines_of(none) =~= Seq::<Seq<char>>::empty());
    let ls = lines_of(t1);
    assert(ls =~= seq![l1, l2, l3, l4]);
    lemma_all_read(s, k1, v1, k2, v2, k3, v3, k4, v4);
}

proof fn lemma_all_read(
    s: SettingsRow,
    k1: Seq<char>,
    v1: Seq<char>,
    k2: Seq<char>,
    v2: Seq<char>,
    k3: Seq<char>,
    v3: Seq<char>,
    k4: Seq<char>,
    v4: Seq<char>,
)
    requires
        s.categories.no_duplicates(),
        k1 == "categories"@,
        k2 == "recycle_bin"@,
        k3 == "confirm_clean"@,
        k4 == "color"@,
        v1 == joined(keys_of(s.categories), seq![',']),
        v2 == bool_text(s.recycle_bin),
        v3 == bool_text(s.confirm_clean),
        v4 == bool_text(s.color),
    ensures
        with_settings(
            default_settings(),
            seq![
                k1 + seq!['='] + v1,
                k2 + seq!['='] + v2,
                k3 + seq!['='] + v3,
                k4 + seq!['='] + v4,
            ],
        ) == s,
{
    reveal_strlit("categories");
    reveal_strlit("recycle_bin");
    reveal_strlit("confirm_clean");
    reveal_strlit("color");
    lemma_joined_keys(s.categories);
    lemma_bool_reads_back(s.recycle_bin);
    lemma_bool_reads_back(s.confirm_clean);
    lemma_bool_reads_back(s.color);
    let d = default_settings();
    let ls = seq![
        k1 + seq!['='] + v1,
        k2 + seq!['='] + v2,
        k3 + seq!['='] + v3,
        k4 + seq!['='] + v4,
    ];
    let s1 = with_settings(d, ls.take(1));
    let s2 = with_settings(d, ls.take(2));
    let s3 = with_settings(d, ls.take(3));
    assert(ls.take(1).drop_last() =~= Seq::<Seq<char>>::empty());
    assert(ls.take(2).drop_last() =~= ls.take(1));
    assert(ls.take(3).drop_last() =~= ls.take(2));
    assert(ls.drop_last() =~= ls.take(3));
    assert(with_settings(d, Seq::<Seq<char>>::empty()) == d);
    assert(k1[0] == 'c' && k2[0] == 'r' && k3[0] == 'c' && k4[0] == 'c');
    assert(k1.len() == 10 && k2.len() == 11 && k3.len() == 13 && k4.len() == 5);
    lemma_setting_line(d, k1, v1);
    lemma_setting_line(s1, k2, v2);
    lemma_setting_line(s2, k3, v3);
    lemma_setting_line(s3, k4, v4);
    assert(s1 == with_value(d, k1, v1));
    assert(s1.categories == s.categories) by {
        if s.categories.len() == 0 {
            assert(v1 =~= Seq::<char>::empty());
            lemma_nothing_to_trim(v1);
            assert(s.categories =~= Seq::<Category>::empty());
        } else {
            let keys = keys_of(s.categories);
            assert forall|i: int| 0 <= i < keys.len() implies !(#[trigger] keys[i]).contains(',') by {
                lemma_key_texts(s.categories[i]);
            }
            lemma_split_joined(keys, ',');
            lemma_categories_read_back(s.categories);
            lemma_nothing_to_trim(v1);
        }
    }
    assert(s2 == with_value(s1, k2, v2));
    assert(s3 == with_value(s2, k3, v3));
}

/// The word says yes.
pub open spec fn says_yes(w: Seq<char>) -> bool {
    w == "true"@ || w == "yes"@ || w == "1"@ || w == "on"@
}

/// The word says no.
pub open spec fn says_no(w: Seq<char>) -> bool {
    w == "false"@ || w == "no"@ || w == "0"@ || w == "off"@
}

/// A line sets the switch that it names, by a word for yes or no in any case, and nothing else; what the
/// file does not say is as for a user who has chosen nothing, and a line further down wins.
pub proof fn lines_set_what_they_name(
    s: SettingsRow,
    front: Seq<Seq<char>>,
    word: Seq<char>,
    yes: bool,
)
    requires
        word.len() > 0,
        !is_space(word[0]),
        !is_space(word.last()),
        says_yes(ascii_lower(word)) && yes || says_no(ascii_lower(word)) && !yes,
    ensures
        with_setting(s, "recycle_bin="@ + word) == (SettingsRow { recycle_bin: yes, ..s }),
        with_setting(s, "confirm_clean="@ + word) == (SettingsRow { confirm_clean: yes, ..s }),
        with_setting(s, "color="@ + word) == (SettingsRow { color: yes, ..s }),
        with_settings(s, front.push("color="@ + word)).color == yes,
        with_settings(s, seq![]) == s,
        !default_settings().recycle_bin,
        default_settings().confirm_clean,
        default_settings().color,
        default_settings().categories == all_categories(),
{
    reveal_strlit("recycle_bin=");
    reveal_strlit("confirm_clean=");
    reveal_strlit("color=");
    reveal_strlit("recycle_bin");
    reveal_strlit("confirm_clean");
    reveal_strlit("color");
    reveal_strlit("categories");
    reveal_strlit("true");
    reveal_strlit("yes");
    reveal_strlit("1");
    reveal_strlit("on");
    reveal_strlit("false");
    reveal_strlit("no");
    reveal_strlit("0");
    reveal_strlit("off");
    assert("recycle_bin"@.len() == 11 && "confirm_clean"@.len() == 13 && "color"@.len() == 5
        && "categories"@.len() == 10);
    lemma_nothing_to_trim(word);
    lemma_words_differ();
    lemma_line_sets(s, "recycle_bin"@, word);
    lemma_line_sets(s, "confirm_clean"@, word);
    lemma_line_sets(s, "color"@, word);
    assert("recycle_bin="@ =~= "recycle_bin"@ + seq!['=']);
    assert("confirm_clean="@ =~= "confirm_clean"@ + seq!['=']);
    assert("color="@ =~= "color"@ + seq!['=']);
    let v = ascii_lower(word);
    assert(trimmed(word) == word);
    assert(!(says_yes(v) && says_no(v)));
    assert(bool_named(word) == Some(yes));
    assert("recycle_bin"@[0] == 'r' && "confirm_clean"@[0] == 'c');
    assert(with_value(s, "recycle_bin"@, word) == (SettingsRow { recycle_bin: yes, ..s }));
    assert(with_value(s, "confirm_clean"@, word) == (SettingsRow { confirm_clean: yes, ..s }));
    assert(with_value(s, "color"@, word) == (SettingsRow { color: yes, ..s }));
    let line = "color="@ + word;
    assert(front.push(line).drop_last() =~= front);
    assert(front.push(line).last() == line);
    lemma_line_sets(with_settings(s, front), "color"@, word);
}

proof fn lemma_words_differ()
    ensures
        forall|w: Seq<char>| !(#[trigger] says_yes(w) && says_no(w)),
{
    reveal_strlit("true");
    reveal_strlit("yes");
    reveal_strlit("1");
    reveal_strlit("on");
    reveal_strlit("false");
    reveal_strlit("no");
    reveal_strlit("0");
    reveal_strlit("off");
    assert("true"@.len() == 4 && "yes"@.len() == 3 && "1"@.len() == 1 && "on"@.len() == 2
        && "false"@.len() == 5 && "no"@.len() == 2 && "0"@.len() == 1 && "off"@.len() == 3);
    assert("yes"@[0] == 'y' && "off"@[0] == 'o' && "1"@[0] == '1' && "0"@[0] == '0' && "on"@[0]
        == 'o' && "no"@[0] == 'n');
}

proof fn lemma_line_sets(s: SettingsRow, key: Seq<char>, word: Seq<char>)
    requires
        key == "recycle_bin"@ || key == "confirm_clean"@ || key == "color"@,
        word.len() > 0,
        !is_space(word.last()),
    ensures
        with_setting(s, key + seq!['='] + word) == with_value(s, key, word),
{
    reveal_strlit("recycle_bin");
    reveal_strlit("confirm_clean");
    reveal_strlit("color");
    reveal_strlit("#");
    assert("#"@.len() == 1 && "#"@[0] == '#');
    let line = key + seq!['='] + word;
    assert(!is_space(line[0]));
    lemma_nothing_to_trim(line);
    lemma_nothing_to_trim(key);
    assert(line.subrange(0, 1)[0] == line[0]);
    assert forall|j: int| 0 <= j < key.len() implies other_than('=')(#[trigger] line[j]) by {
        assert(line[j] == key[j]);
    }
    lemma_run_len(line, other_than('='), key.len() as int);
    assert(line.take(key.len() as int) =~= key);
    assert(line.skip(key.len() as int + 1) =~= word);
}

/// The settings lie beside the other files of the program: in the user's roaming data, or below their
/// home where there is none.
pub proof fn the_settings_are_the_users_own(env: Env)
    ensures
        env("APPDATA"@) matches Some(dir) ==> settings_pieces(env) == Some(
            seq![dir, "dustpan"@, "settings.conf"@],
        ),
        env("APPDATA"@) is None ==> (env("HOME"@) matches Some(home) ==> settings_pieces(env) == Some(
            seq![home, ".config"@, "dustpan"@, "settings.conf"@],
        )),
        env("APPDATA"@) is None && env("HOME"@) is None ==> settings_pieces(env) is None,
{
}

} // verus!
