//! The context-menu manager: lists, hides and restores the right-click entries that vendors put into
//! the registry.
//!
//! Hiding destroys nothing and needs no administrator rights: a handler is put on the user's own
//! block list, and a verb gets a `LegacyDisable` value in the user's shadow of its key. No key of a
//! vendor is ever deleted, and what is written is a value below `HKEY_CURRENT_USER`.

use vstd::prelude::*;

use crate::inventory::truncate;
use crate::json::{json_escape, json_escaped};
use crate::number::{align_left, decimal, decimal_of, left_aligned};
use crate::settings::{bool_text, bool_word};
use crate::text::{
    all_ascii, chars_of, contains, contains_text, folded, has_prefix, hex, is_hex, join, joined,
    lower_of, no_texts, push_text, replace, replaced, starts_with, string_of, text_opt, texts,
    trim_str, trimmed,
};
use crate::ui::{painted, truncated, Style};

verus! {

/// What is to be done.
#[derive(Clone, Copy, PartialEq, Eq, Debug, Structural)]
pub enum Action {
    List,
    Off,
    On,
}

/// What the manager is asked for.
pub struct CtxOptions {
    pub action: Action,
    pub filter: Option<String>,
    pub json: bool,
}

/// What an entry is.
#[derive(Clone, Copy, PartialEq, Eq, Debug, Structural)]
pub enum Kind {
    /// A verb under `shell\<name>`.
    Verb,
    /// A handler under `shellex\ContextMenuHandlers\<name>`.
    Handler,
}

impl Kind {
    pub open spec fn label_text(self) -> Seq<char> {
        match self {
            Kind::Verb => "verb"@,
            Kind::Handler => "handler"@,
        }
    }

    pub fn label(self) -> (r: &'static str)
        ensures
            r@ == self.label_text(),
    {
        match self {
            Kind::Verb => "verb",
            Kind::Handler => "handler",
        }
    }
}

/// Where an entry shows up.
#[derive(Clone, Copy, PartialEq, Eq, Debug, Structural)]
pub enum Scope {
    Files,
    Directory,
    Background,
    Folder,
    Drive,
    AllObjects,
}

/// All scopes, in display order.
pub open spec fn all_scopes() -> Seq<Scope> {
    seq![
        Scope::Files,
        Scope::Directory,
        Scope::Background,
        Scope::Folder,
        Scope::Drive,
        Scope::AllObjects,
    ]
}

impl Scope {
    pub const ALL: [Scope; 6] = [
        Scope::Files,
        Scope::Directory,
        Scope::Background,
        Scope::Folder,
        Scope::Drive,
        Scope::AllObjects,
    ];

    pub open spec fn path_text(self) -> Seq<char> {
        match self {
            Scope::Files => "*"@,
            Scope::Directory => "Directory"@,
            Scope::Background => "Directory\\Background"@,
            Scope::Folder => "Folder"@,
            Scope::Drive => "Drive"@,
            Scope::AllObjects => "AllFilesystemObjects"@,
        }
    }

    pub open spec fn label_text(self) -> Seq<char> {
        match self {
            Scope::Files => "files"@,
            Scope::Directory => "directories"@,
            Scope::Background => "folder background"@,
            Scope::Folder => "folders"@,
            Scope::Drive => "drives"@,
            Scope::AllObjects => "all objects"@,
        }
    }

    /// The tree of the classes that the entries live under.
    pub fn reg_path(self) -> (r: &'static str)
        ensures
            r@ == self.path_text(),
    {
        match self {
            Scope::Files => "*",
            Scope::Directory => "Directory",
            Scope::Background => "Directory\\Background",
            Scope::Folder => "Folder",
            Scope::Drive => "Drive",
            Scope::AllObjects => "AllFilesystemObjects",
        }
    }

    pub fn label(self) -> (r: &'static str)
        ensures
            r@ == self.label_text(),
    {
        match self {
            Scope::Files => "files",
            Scope::Directory => "directories",
            Scope::Background => "folder background",
            Scope::Folder => "folders",
            Scope::Drive => "drives",
            Scope::AllObjects => "all objects",
        }
    }
}

/// An entry of the context menu.
pub struct MenuEntry {
    /// The name of its registry key, by which it is found again.
    pub id: String,
    /// The text of the menu, or the friendly name of a handler.
    pub text: String,
    pub scope: Scope,
    pub kind: Kind,
    /// Of a handler, the class that is blocked.
    pub clsid: String,
    /// The command of a verb, the library of a handler: whose entry it is.
    pub detail: String,
    pub disabled: bool,
}

/// An entry as mathematical data.
pub struct MenuRow {
    pub id: Seq<char>,
    pub text: Seq<char>,
    pub scope: Scope,
    pub kind: Kind,
    pub clsid: Seq<char>,
    pub detail: Seq<char>,
    pub disabled: bool,
}

impl View for MenuEntry {
    type V = MenuRow;

    open spec fn view(&self) -> MenuRow {
        MenuRow {
            id: self.id@,
            text: self.text@,
            scope: self.scope,
            kind: self.kind,
            clsid: self.clsid@,
            detail: self.detail@,
            disabled: self.disabled,
        }
    }
}

pub open spec fn menu_rows(v: Seq<MenuEntry>) -> Seq<MenuRow> {
    v.map_values(|e: MenuEntry| e@)
}

/// The entry belongs to Windows itself, by where its program or library lies.
pub open spec fn is_builtin(e: MenuRow) -> bool {
    let d = folded(e.detail);
    ||| contains(d, "\\windows\\system32"@)
    ||| contains(d, "\\windows\\syswow64"@)
    ||| contains(d, "%systemroot%\\system32"@)
    ||| contains(d, "%systemroot%\\syswow64"@)
    ||| contains(d, "%windir%\\system32"@)
    ||| contains(d, "%windir%\\syswow64"@)
}

fn holds(text: &[char], piece: &str) -> (r: bool)
    ensures
        r == contains(text@, piece@),
{
    contains_text(text, chars_of(piece).as_slice())
}

impl MenuEntry {
    /// Whether the entry belongs to Windows itself: to hide those is usually a mistake.
    pub fn is_windows_builtin(&self) -> (r: bool)
        ensures
            r == is_builtin(self@),
    {
        let d = lower_of(self.detail.as_str());
        let s = d.as_slice();
        holds(s, "\\windows\\system32") || holds(s, "\\windows\\syswow64") || holds(
            s,
            "%systemroot%\\system32",
        ) || holds(s, "%systemroot%\\syswow64") || holds(s, "%windir%\\system32") || holds(
            s,
            "%windir%\\syswow64",
        )
    }
}

/// The text of a menu entry without its access-key marks. A reference into a resource, or no text at
/// all, gives the fallback.
pub open spec fn menu_text(raw: Seq<char>, fallback: Seq<char>) -> Seq<char> {
    let t = trimmed(raw);
    if t.len() == 0 || has_prefix(t, "@"@) {
        fallback
    } else {
        replaced(t, '&', seq![])
    }
}

/// `&Upload to Foo` becomes `Upload to Foo`; a resource such as `@shell32.dll,-123` cannot be looked
/// up, and gives the name of the key.
pub fn clean_menu_text(raw: &str, fallback: &str) -> (r: String)
    ensures
        r@ == menu_text(raw@, fallback@),
{
    let t = trim_str(raw);
    if t.len() == 0 || starts_with(t.as_slice(), "@") {
        return fallback.to_string();
    }
    let none: Vec<char> = Vec::new();
    assert(none@ =~= Seq::<char>::empty());
    string_of(replace(t.as_slice(), '&', none.as_slice()).as_slice())
}

/// The text has the form of a class id: 36 hexadecimal digits and hyphens in braces.
pub open spec fn is_clsid(s: Seq<char>) -> bool {
    let t = trimmed(s);
    &&& t.len() == 38
    &&& t[0] == '{'
    &&& t[37] == '}'
    &&& forall|i: int| 1 <= i < 37 ==> is_hex(#[trigger] t[i]) || t[i] == '-'
}

/// Whether a text has the form of a class id.
pub fn looks_like_clsid(s: &str) -> (r: bool)
    ensures
        r == is_clsid(s@),
{
    let t = trim_str(s);
    if t.len() != 38 || t[0] != '{' || t[37] != '}' {
        return false;
    }
    for i in 1..37
        invariant
            t@ == trimmed(s@),
            t@.len() == 38,
            forall|j: int| 1 <= j < i ==> is_hex(#[trigger] t@[j]) || t@[j] == '-',
    {
        if !hex(t[i]) && t[i] != '-' {
            return false;
        }
    }
    true
}

/// The name or the text of the entry holds the words, case aside.
pub open spec fn answers_to(e: MenuRow, needle: Seq<char>) -> bool {
    contains(folded(e.id), folded(needle)) || contains(folded(e.text), folded(needle))
}

/// The places of the entries that answer to the words.
pub open spec fn matching(entries: Seq<MenuRow>, needle: Seq<char>) -> Seq<usize>
    decreases entries.len(),
{
    if entries.len() == 0 {
        seq![]
    } else {
        let front = matching(entries.drop_last(), needle);
        if answers_to(entries.last(), needle) {
            front.push((entries.len() - 1) as usize)
        } else {
            front
        }
    }
}

/// The places of the entries whose name or text holds the words, case aside.
pub fn find_matches(entries: &Vec<MenuEntry>, needle: &str) -> (r: Vec<usize>)
    ensures
        r@ == matching(menu_rows(entries@), needle@),
        forall|i: int| 0 <= i < r@.len() ==> #[trigger] r@[i] < entries@.len(),
{
    let n = lower_of(needle);
    let ghost all = menu_rows(entries@);
    let mut out: Vec<usize> = Vec::new();
    assert(all.take(0) =~= Seq::<MenuRow>::empty());
    for i in 0..entries.len()
        invariant
            all == menu_rows(entries@),
            n@ == folded(needle@),
            out@ == matching(all.take(i as int), needle@),
            forall|k: int| 0 <= k < out@.len() ==> #[trigger] out@[k] < i,
    {
        assert(all.take(i + 1).drop_last() =~= all.take(i as int));
        assert(all.take(i + 1).last() == entries@[i as int]@);
        let id = lower_of(entries[i].id.as_str());
        let text = lower_of(entries[i].text.as_str());
        if contains_text(id.as_slice(), n.as_slice()) || contains_text(
            text.as_slice(),
            n.as_slice(),
        ) {
            out.push(i);
        }
    }
    assert(all.take(all.len() as int) =~= all);
    out
}

// ---------------------------------------------------------------------------
// Collecting
// ---------------------------------------------------------------------------

/// What is asked of the registry, all below the merged view of the classes.
pub struct Classes<S, V, H, B> {
    /// The names of the keys below a key; none where it cannot be opened.
    pub subkeys: S,
    /// The text of a value of a key, empty where it has none; nothing where the key cannot be opened.
    pub value: V,
    /// Whether a key has a value.
    pub has: H,
    /// Whether a class is on a block list.
    pub blocked: B,
}

/// What the registry answers.
pub struct ClassWorld {
    pub keys: spec_fn(Seq<char>) -> Option<Seq<Seq<char>>>,
    pub values: spec_fn(Seq<char>, Seq<char>) -> Option<Seq<char>>,
    pub flags: spec_fn(Seq<char>, Seq<char>) -> bool,
    pub blocked: spec_fn(Seq<char>) -> bool,
}

/// The registry can be asked for everything.
pub open spec fn can_ask<
    S: Fn(&str) -> Option<Vec<String>>,
    V: Fn(&str, &str) -> Option<String>,
    H: Fn(&str, &str) -> bool,
    B: Fn(&str) -> bool,
>(c: Classes<S, V, H, B>) -> bool {
    &&& forall|p: &str| #[trigger] call_requires(c.subkeys, (p,))
    &&& forall|p: &str, n: &str| #[trigger] call_requires(c.value, (p, n))
    &&& forall|p: &str, n: &str| #[trigger] call_requires(c.has, (p, n))
    &&& forall|p: &str| #[trigger] call_requires(c.blocked, (p,))
}

/// The registry gives what the world says, whenever it is asked.
pub open spec fn tells<
    S: Fn(&str) -> Option<Vec<String>>,
    V: Fn(&str, &str) -> Option<String>,
    H: Fn(&str, &str) -> bool,
    B: Fn(&str) -> bool,
>(c: Classes<S, V, H, B>, w: ClassWorld) -> bool {
    &&& forall|p: &str, r: Option<Vec<String>>| #[trigger]
        call_ensures(c.subkeys, (p,), r) ==> crate::steam::texts_opt(r) == (w.keys)(p@)
    &&& forall|p: &str, n: &str, r: Option<String>| #[trigger]
        call_ensures(c.value, (p, n), r) ==> text_opt(r) == (w.values)(p@, n@)
    &&& forall|p: &str, n: &str, r: bool| #[trigger]
        call_ensures(c.has, (p, n), r) ==> r == (w.flags)(p@, n@)
    &&& forall|p: &str, r: bool| #[trigger]
        call_ensures(c.blocked, (p,), r) ==> r == (w.blocked)(p@)
}

/// The default value of a key, empty where the key cannot be opened.
pub open spec fn default_value(path: Seq<char>, w: ClassWorld) -> Seq<char> {
    match (w.values)(path, ""@) {
        Some(v) => v,
        None => seq![],
    }
}

/// A key below a key.
pub open spec fn below(path: Seq<char>, name: Seq<char>) -> Seq<char> {
    path + "\\"@ + name
}

/// The entry of a verb, if its key can be opened.
pub open spec fn verb_entry(scope: Scope, verb: Seq<char>, w: ClassWorld) -> Seq<MenuRow> {
    let path = below(scope.path_text() + "\\shell"@, verb);
    match (w.values)(path, "MUIVerb"@) {
        None => seq![],
        Some(mui) => seq![
            MenuRow {
                id: verb,
                text: menu_text(
                    if mui.len() == 0 {
                        default_value(path, w)
                    } else {
                        mui
                    },
                    verb,
                ),
                scope,
                kind: Kind::Verb,
                clsid: seq![],
                detail: default_value(below(path, "command"@), w),
                disabled: (w.flags)(path, "LegacyDisable"@),
            },
        ],
    }
}

/// The class of a handler: its value, or else its name, whichever has the form of one.
pub open spec fn handler_class(name: Seq<char>, value: Seq<char>) -> Option<Seq<char>> {
    if is_clsid(value) {
        Some(value)
    } else if is_clsid(name) {
        Some(name)
    } else {
        None
    }
}

/// The entry of a handler; one without a class could not be blocked and has none.
pub open spec fn handler_entry(scope: Scope, name: Seq<char>, w: ClassWorld) -> Seq<MenuRow> {
    let path = below(scope.path_text() + "\\shellex\\ContextMenuHandlers"@, name);
    match handler_class(name, default_value(path, w)) {
        None => seq![],
        Some(clsid) => {
            let class = below("CLSID"@, clsid);
            seq![
                MenuRow {
                    id: name,
                    text: menu_text(default_value(class, w), name),
                    scope,
                    kind: Kind::Handler,
                    clsid,
                    detail: default_value(below(class, "InprocServer32"@), w),
                    disabled: (w.blocked)(clsid),
                },
            ]
        },
    }
}

/// The entries of the verbs of a scope.
pub open spec fn verb_entries(scope: Scope, names: Seq<Seq<char>>, w: ClassWorld) -> Seq<MenuRow>
    decreases names.len(),
{
    if names.len() == 0 {
        seq![]
    } else {
        verb_entries(scope, names.drop_last(), w) + verb_entry(scope, names.last(), w)
    }
}

/// The entries of the handlers of a scope.
pub open spec fn handler_entries(scope: Scope, names: Seq<Seq<char>>, w: ClassWorld) -> Seq<MenuRow>
    decreases names.len(),
{
    if names.len() == 0 {
        seq![]
    } else {
        handler_entries(scope, names.drop_last(), w) + handler_entry(scope, names.last(), w)
    }
}

/// The names of the keys below a key; none where it cannot be opened.
pub open spec fn keys_below(path: Seq<char>, w: ClassWorld) -> Seq<Seq<char>> {
    match (w.keys)(path) {
        Some(names) => names,
        None => seq![],
    }
}

/// The entries of a scope: verbs, then handlers.
pub open spec fn scope_entries(scope: Scope, w: ClassWorld) -> Seq<MenuRow> {
    verb_entries(scope, keys_below(scope.path_text() + "\\shell"@, w), w) + handler_entries(
        scope,
        keys_below(scope.path_text() + "\\shellex\\ContextMenuHandlers"@, w),
        w,
    )
}

/// The entries of the first scopes.
pub open spec fn entries_of(scopes: Seq<Scope>, w: ClassWorld) -> Seq<MenuRow>
    decreases scopes.len(),
{
    if scopes.len() == 0 {
        seq![]
    } else {
        entries_of(scopes.drop_last(), w) + scope_entries(scopes.last(), w)
    }
}

fn key_below(path: &str, name: &str) -> (r: String)
    ensures
        r@ == below(path@, name@),
{
    let mut out = path.to_string();
    out.append("\\");
    out.append(name);
    out
}

fn no_text() -> (r: String)
    ensures
        r@ == Seq::<char>::empty(),
{
    let r = String::new();
    assert(r@ =~= Seq::<char>::empty());
    r
}

fn push_entry(list: &mut Vec<MenuEntry>, e: MenuEntry)
    ensures
        menu_rows(final(list)@) == menu_rows(old(list)@) + seq![e@],
{
    list.push(e);
    assert(menu_rows(list@) =~= menu_rows(old(list)@) + seq![e@]);
}

fn read_default<
    S: Fn(&str) -> Option<Vec<String>>,
    V: Fn(&str, &str) -> Option<String>,
    H: Fn(&str, &str) -> bool,
    B: Fn(&str) -> bool,
>(path: &str, classes: &Classes<S, V, H, B>) -> (r: String)
    requires
        can_ask(*classes),
    ensures
        forall|w: ClassWorld| tells(*classes, w) ==> r@ == #[trigger] default_value(path@, w),
{
    let got = (classes.value)(path, "");
    let ghost shown = text_opt(got);
    let r = match got {
        Some(v) => v,
        None => no_text(),
    };
    assert forall|w: ClassWorld| tells(*classes, w) implies r@ == #[trigger] default_value(
        path@,
        w,
    ) by {
        assert(shown == (w.values)(path@, ""@));
    }
    r
}

fn add_verb<
    S: Fn(&str) -> Option<Vec<String>>,
    V: Fn(&str, &str) -> Option<String>,
    H: Fn(&str, &str) -> bool,
    B: Fn(&str) -> bool,
>(
    out: &mut Vec<MenuEntry>,
    scope: Scope,
    shell: &str,
    verb: &str,
    classes: &Classes<S, V, H, B>,
)
    requires
        can_ask(*classes),
        shell@ == scope.path_text() + "\\shell"@,
    ensures
        forall|w: ClassWorld|
            tells(*classes, w) ==> menu_rows(final(out)@) == menu_rows(old(out)@)
                + #[trigger] verb_entry(scope, verb@, w),
{
    let ghost before = menu_rows(out@);
    let path = key_below(shell, verb);
    let mui_value = (classes.value)(path.as_str(), "MUIVerb");
    let ghost shown = text_opt(mui_value);
    let mui = match mui_value {
        Some(m) => m,
        None => {
            assert(before + Seq::<MenuRow>::empty() =~= before);
            return;
        },
    };
    let default = read_default(path.as_str(), classes);
    let raw = if chars_of(mui.as_str()).len() == 0 {
        default.clone()
    } else {
        mui.clone()
    };
    let command_path = key_below(path.as_str(), "command");
    let command = read_default(command_path.as_str(), classes);
    let disabled = (classes.has)(path.as_str(), "LegacyDisable");
    let e = MenuEntry {
        id: verb.to_string(),
        text: clean_menu_text(raw.as_str(), verb),
        scope,
        kind: Kind::Verb,
        clsid: no_text(),
        detail: command,
        disabled,
    };
    push_entry(out, e);
    assert forall|w: ClassWorld| tells(*classes, w) implies menu_rows(out@) == before
        + #[trigger] verb_entry(scope, verb@, w) by {
        assert(shown == (w.values)(path@, "MUIVerb"@));
        assert(default@ == default_value(path@, w));
        assert(command@ == default_value(command_path@, w));
        assert(disabled == (w.flags)(path@, "LegacyDisable"@));
    }
}

fn add_handler<
    S: Fn(&str) -> Option<Vec<String>>,
    V: Fn(&str, &str) -> Option<String>,
    H: Fn(&str, &str) -> bool,
    B: Fn(&str) -> bool,
>(
    out: &mut Vec<MenuEntry>,
    scope: Scope,
    handlers: &str,
    name: &str,
    classes: &Classes<S, V, H, B>,
)
    requires
        can_ask(*classes),
        handlers@ == scope.path_text() + "\\shellex\\ContextMenuHandlers"@,
    ensures
        forall|w: ClassWorld|
            tells(*classes, w) ==> menu_rows(final(out)@) == menu_rows(old(out)@)
                + #[trigger] handler_entry(scope, name@, w),
{
    let ghost before = menu_rows(out@);
    let path = key_below(handlers, name);
    let value = read_default(path.as_str(), classes);
    let clsid = if looks_like_clsid(value.as_str()) {
        value.clone()
    } else if looks_like_clsid(name) {
        name.to_string()
    } else {
        assert(before + Seq::<MenuRow>::empty() =~= before);
        assert forall|w: ClassWorld| tells(*classes, w) implies menu_rows(out@) == before
            + #[trigger] handler_entry(scope, name@, w) by {
            assert(value@ == default_value(path@, w));
        }
        return;
    };
    let class = key_below("CLSID", clsid.as_str());
    let friendly = read_default(class.as_str(), classes);
    let server = key_below(class.as_str(), "InprocServer32");
    let dll = read_default(server.as_str(), classes);
    let disabled = (classes.blocked)(clsid.as_str());
    let ghost clsid_text = clsid@;
    let e = MenuEntry {
        id: name.to_string(),
        text: clean_menu_text(friendly.as_str(), name),
        scope,
        kind: Kind::Handler,
        clsid,
        detail: dll,
        disabled,
    };
    push_entry(out, e);
    assert forall|w: ClassWorld| tells(*classes, w) implies menu_rows(out@) == before
        + #[trigger] handler_entry(scope, name@, w) by {
        assert(value@ == default_value(path@, w));
        assert(friendly@ == default_value(class@, w));
        assert(dll@ == default_value(server@, w));
        assert(disabled == (w.blocked)(clsid_text));
    }
}

fn subkeys_of<
    S: Fn(&str) -> Option<Vec<String>>,
    V: Fn(&str, &str) -> Option<String>,
    H: Fn(&str, &str) -> bool,
    B: Fn(&str) -> bool,
>(path: &str, classes: &Classes<S, V, H, B>) -> (r: Vec<String>)
    requires
        can_ask(*classes),
    ensures
        forall|w: ClassWorld| tells(*classes, w) ==> texts(r@) == #[trigger] keys_below(path@, w),
{
    let got = (classes.subkeys)(path);
    let ghost shown = crate::steam::texts_opt(got);
    let r = match got {
        Some(names) => names,
        None => no_texts(),
    };
    assert forall|w: ClassWorld| tells(*classes, w) implies texts(r@) == #[trigger] keys_below(
        path@,
        w,
    ) by {
        assert(shown == (w.keys)(path@));
    }
    r
}

fn add_scope<
    S: Fn(&str) -> Option<Vec<String>>,
    V: Fn(&str, &str) -> Option<String>,
    H: Fn(&str, &str) -> bool,
    B: Fn(&str) -> bool,
>(out: &mut Vec<MenuEntry>, scope: Scope, classes: &Classes<S, V, H, B>)
    requires
        can_ask(*classes),
    ensures
        forall|w: ClassWorld|
            tells(*classes, w) ==> menu_rows(final(out)@) == menu_rows(old(out)@)
                + #[trigger] scope_entries(scope, w),
{
    let ghost before = menu_rows(out@);
    let mut shell = scope.reg_path().to_string();
    shell.append("\\shell");
    let verbs = subkeys_of(shell.as_str(), classes);
    let ghost all = texts(verbs@);
    let mut i: usize = 0;
    assert(all.take(0) =~= Seq::<Seq<char>>::empty());
    assert(before + Seq::<MenuRow>::empty() =~= before);
    while i < verbs.len()
        invariant
            i <= verbs@.len(),
            all == texts(verbs@),
            can_ask(*classes),
            shell@ == scope.path_text() + "\\shell"@,
            forall|w: ClassWorld|
                tells(*classes, w) ==> menu_rows(out@) == before + #[trigger] verb_entries(
                    scope,
                    all.take(i as int),
                    w,
                ),
        decreases verbs@.len() - i,
    {
        let ghost mid = menu_rows(out@);
        assert(all.take(i + 1).drop_last() =~= all.take(i as int));
        assert(all.take(i + 1).last() == verbs@[i as int]@);
        add_verb(out, scope, shell.as_str(), verbs[i].as_str(), classes);
        assert forall|w: ClassWorld| tells(*classes, w) implies menu_rows(out@) == before
            + #[trigger] verb_entries(scope, all.take(i + 1), w) by {
            let front = verb_entries(scope, all.take(i as int), w);
            let one = verb_entry(scope, verbs@[i as int]@, w);
            assert(mid == before + front);
            assert(menu_rows(out@) == mid + one);
            assert(before + front + one =~= before + (front + one));
        }
        i = i + 1;
    }
    assert(all.take(all.len() as int) =~= all);
    let ghost middle = menu_rows(out@);
    let mut handlers = scope.reg_path().to_string();
    handlers.append("\\shellex\\ContextMenuHandlers");
    let names = subkeys_of(handlers.as_str(), classes);
    let ghost rest = texts(names@);
    let mut k: usize = 0;
    assert(rest.take(0) =~= Seq::<Seq<char>>::empty());
    assert(middle + Seq::<MenuRow>::empty() =~= middle);
    while k < names.len()
        invariant
            k <= names@.len(),
            rest == texts(names@),
            can_ask(*classes),
            handlers@ == scope.path_text() + "\\shellex\\ContextMenuHandlers"@,
            forall|w: ClassWorld|
                tells(*classes, w) ==> menu_rows(out@) == middle + #[trigger] handler_entries(
                    scope,
                    rest.take(k as int),
                    w,
                ),
        decreases names@.len() - k,
    {
        let ghost mid = menu_rows(out@);
        assert(rest.take(k + 1).drop_last() =~= rest.take(k as int));
        assert(rest.take(k + 1).last() == names@[k as int]@);
        add_handler(out, scope, handlers.as_str(), names[k].as_str(), classes);
        assert forall|w: ClassWorld| tells(*classes, w) implies menu_rows(out@) == middle
            + #[trigger] handler_entries(scope, rest.take(k + 1), w) by {
            let front = handler_entries(scope, rest.take(k as int), w);
            let one = handler_entry(scope, names@[k as int]@, w);
            assert(mid == middle + front);
            assert(menu_rows(out@) == mid + one);
            assert(middle + front + one =~= middle + (front + one));
        }
        k = k + 1;
    }
    assert(rest.take(rest.len() as int) =~= rest);
    assert forall|w: ClassWorld| tells(*classes, w) implies menu_rows(out@) == before
        + #[trigger] scope_entries(scope, w) by {
        let a = verb_entries(scope, all, w);
        let b = handler_entries(scope, rest, w);
        assert(all == keys_below(shell@, w));
        assert(rest == keys_below(handlers@, w));
        assert(middle == before + a);
        assert(menu_rows(out@) == middle + b);
        assert(before + a + b =~= before + (a + b));
    }
}

/// All entries of the context menu, scope by scope.
pub fn collect<
    S: Fn(&str) -> Option<Vec<String>>,
    V: Fn(&str, &str) -> Option<String>,
    H: Fn(&str, &str) -> bool,
    B: Fn(&str) -> bool,
>(classes: &Classes<S, V, H, B>) -> (r: Vec<MenuEntry>)
    requires
        can_ask(*classes),
    ensures
        forall|w: ClassWorld|
            tells(*classes, w) ==> menu_rows(r@) == #[trigger] entries_of(all_scopes(), w),
{
    let scopes = Scope::ALL;
    let ghost all = all_scopes();
    assert(scopes@ =~= all);
    let mut out: Vec<MenuEntry> = Vec::new();
    let mut i: usize = 0;
    assert(all.take(0) =~= Seq::<Scope>::empty());
    assert(menu_rows(out@) =~= Seq::<MenuRow>::empty());
    while i < 6
        invariant
            i <= 6,
            all == all_scopes(),
            scopes@ == all,
            can_ask(*classes),
            forall|w: ClassWorld|
                tells(*classes, w) ==> menu_rows(out@) == #[trigger] entries_of(
                    all.take(i as int),
                    w,
                ),
        decreases 6 - i,
    {
        let ghost mid = menu_rows(out@);
        assert(all.take(i + 1).drop_last() =~= all.take(i as int));
        assert(all.take(i + 1).last() == scopes@[i as int]);
        add_scope(&mut out, scopes[i], classes);
        assert forall|w: ClassWorld| tells(*classes, w) implies menu_rows(out@)
            == #[trigger] entries_of(all.take(i + 1), w) by {
            assert(mid == entries_of(all.take(i as int), w));
            assert(menu_rows(out@) == mid + scope_entries(scopes@[i as int], w));
        }
        i = i + 1;
    }
    assert(all.take(6) =~= all);
    out
}

// ---------------------------------------------------------------------------
// Hiding and restoring
// ---------------------------------------------------------------------------

/// A change of one value below `HKEY_CURRENT_USER`. There is no other root, and no change to a key.
pub struct UserWrite {
    pub path: String,
    pub name: String,
    /// The text that the value gets; without one the value is deleted.
    pub data: Option<String>,
}

/// A change as mathematical data.
pub struct WriteRow {
    pub path: Seq<char>,
    pub name: Seq<char>,
    pub data: Option<Seq<char>>,
}

impl View for UserWrite {
    type V = WriteRow;

    open spec fn view(&self) -> WriteRow {
        WriteRow { path: self.path@, name: self.name@, data: text_opt(self.data) }
    }
}

/// The user's block list of shell extensions.
pub const BLOCKED_KEY: &'static str =
    "Software\\Microsoft\\Windows\\CurrentVersion\\Shell Extensions\\Blocked";

/// The user's shadow of a verb's key.
pub open spec fn shadow_key(e: MenuRow) -> Seq<char> {
    "Software\\Classes\\"@ + e.scope.path_text() + "\\shell\\"@ + e.id
}

/// The change that hides an entry: a handler is put on the block list, a verb gets the value that
/// hides it.
pub open spec fn hiding(e: MenuRow) -> WriteRow {
    match e.kind {
        Kind::Handler => WriteRow { path: BLOCKED_KEY@, name: e.clsid, data: Some(e.text) },
        Kind::Verb => WriteRow {
            path: shadow_key(e),
            name: "LegacyDisable"@,
            data: Some(seq![]),
        },
    }
}

/// The change that restores an entry: what hid it is deleted.
pub open spec fn restoring(e: MenuRow) -> WriteRow {
    match e.kind {
        Kind::Handler => WriteRow { path: BLOCKED_KEY@, name: e.clsid, data: None },
        Kind::Verb => WriteRow { path: shadow_key(e), name: "LegacyDisable"@, data: None },
    }
}

fn shadow_path(entry: &MenuEntry) -> (r: String)
    ensures
        r@ == shadow_key(entry@),
{
    let mut out = "Software\\Classes\\".to_string();
    out.append(entry.scope.reg_path());
    out.append("\\shell\\");
    out.append(entry.id.as_str());
    out
}

/// The change that hides an entry.
pub fn disable(entry: &MenuEntry) -> (r: UserWrite)
    ensures
        r@ == hiding(entry@),
{
    match entry.kind {
        Kind::Handler => UserWrite {
            path: BLOCKED_KEY.to_string(),
            name: entry.clsid.clone(),
            data: Some(entry.text.clone()),
        },
        Kind::Verb => UserWrite {
            path: shadow_path(entry),
            name: "LegacyDisable".to_string(),
            data: Some(no_text()),
        },
    }
}

/// The change that restores an entry.
pub fn enable(entry: &MenuEntry) -> (r: UserWrite)
    ensures
        r@ == restoring(entry@),
{
    match entry.kind {
        Kind::Handler => UserWrite {
            path: BLOCKED_KEY.to_string(),
            name: entry.clsid.clone(),
            data: None,
        },
        Kind::Verb => UserWrite {
            path: shadow_path(entry),
            name: "LegacyDisable".to_string(),
            data: None,
        },
    }
}

/// What a request to hide or restore comes to.
pub enum Verdict {
    /// It fails, and this is said on the error stream.
    Fail(String),
    /// It fails because several entries answer, and this is said.
    Ambiguous(String),
    /// The entry at the place is changed.
    Write(usize, UserWrite),
}

/// What a request comes to, as mathematical data.
pub enum VerdictRow {
    Fail(Seq<char>),
    Ambiguous(Seq<char>),
    Write(int, WriteRow),
}

impl View for Verdict {
    type V = VerdictRow;

    open spec fn view(&self) -> VerdictRow {
        match self {
            Verdict::Fail(s) => VerdictRow::Fail(s@),
            Verdict::Ambiguous(s) => VerdictRow::Ambiguous(s@),
            Verdict::Write(i, w) => VerdictRow::Write(*i as int, w@),
        }
    }
}

/// The row of an entry that answers, with where it shows up.
pub open spec fn candidate_row(e: MenuRow, on: bool) -> Seq<char> {
    "  "@ + left_aligned(e.text, 30) + " "@ + left_aligned(e.kind.label_text(), 10) + " "@ + painted(
        on,
        "2"@,
        e.scope.label_text(),
    ) + "\n"@
}

/// The rows of the first entries that answer.
pub open spec fn candidate_rows(
    entries: Seq<MenuRow>,
    places: Seq<usize>,
    on: bool,
    count: int,
) -> Seq<char>
    decreases count,
{
    if count <= 0 {
        seq![]
    } else {
        candidate_rows(entries, places, on, count - 1) + candidate_row(
            entries[places[count - 1] as int],
            on,
        )
    }
}

/// What is said when several entries answer: how many, and the first ten.
pub open spec fn ambiguous_text(
    entries: Seq<MenuRow>,
    places: Seq<usize>,
    filter: Seq<char>,
    on: bool,
) -> Seq<char> {
    decimal(places.len()) + " matches for '"@ + filter + "', be more specific:\n"@ + candidate_rows(
        entries,
        places,
        on,
        if places.len() < 10 {
            places.len() as int
        } else {
            10
        },
    )
}

/// What a request to hide or restore comes to. Exactly one entry must answer, and what belongs to
/// Windows is not hidden.
pub open spec fn judged(
    entries: Seq<MenuRow>,
    filter: Seq<char>,
    hide_it: bool,
    on: bool,
) -> VerdictRow {
    let places = matching(entries, filter);
    if places.len() == 0 {
        VerdictRow::Fail("no context-menu entry matches '"@ + filter + "'"@)
    } else if places.len() > 1 {
        VerdictRow::Ambiguous(ambiguous_text(entries, places, filter, on))
    } else {
        let e = entries[places[0] as int];
        if hide_it && is_builtin(e) {
            VerdictRow::Fail(
                "'"@ + e.text + "' looks like a Windows built-in entry, refusing to disable it"@,
            )
        } else {
            VerdictRow::Write(
                places[0] as int,
                if hide_it {
                    hiding(e)
                } else {
                    restoring(e)
                },
            )
        }
    }
}

fn render_candidates(
    entries: &Vec<MenuEntry>,
    places: &Vec<usize>,
    style: &Style,
    count: usize,
) -> (r: String)
    requires
        count <= places@.len(),
        forall|i: int| 0 <= i < places@.len() ==> #[trigger] places@[i] < entries@.len(),
    ensures
        r@ == candidate_rows(menu_rows(entries@), places@, style.on, count as int),
{
    let ghost all = menu_rows(entries@);
    let mut out = no_text();
    for i in 0..count
        invariant
            count <= places@.len(),
            all == menu_rows(entries@),
            forall|j: int| 0 <= j < places@.len() ==> #[trigger] places@[j] < entries@.len(),
            out@ == candidate_rows(all, places@, style.on, i as int),
    {
        let e = &entries[places[i]];
        assert(all[places@[i as int] as int] == e@);
        let mut row = "  ".to_string();
        row.append(align_left(e.text.as_str(), 30).as_str());
        row.append(" ");
        row.append(align_left(e.kind.label(), 10).as_str());
        row.append(" ");
        row.append(style.dim(e.scope.label()).as_str());
        row.append("\n");
        out.append(row.as_str());
    }
    out
}

/// Judges a request to hide (`hide_it`) or restore the entry that answers to the words.
pub fn judge(entries: &Vec<MenuEntry>, filter: &str, hide_it: bool, style: &Style) -> (r: Verdict)
    ensures
        r@ == judged(menu_rows(entries@), filter@, hide_it, style.on),
{
    let places = find_matches(entries, filter);
    if places.len() == 0 {
        let mut out = "no context-menu entry matches '".to_string();
        out.append(filter);
        out.append("'");
        return Verdict::Fail(out);
    }
    if places.len() > 1 {
        let mut out = decimal_of(places.len() as u64);
        out.append(" matches for '");
        out.append(filter);
        out.append("', be more specific:\n");
        let count: usize = if places.len() < 10 {
            places.len()
        } else {
            10
        };
        out.append(render_candidates(entries, &places, style, count).as_str());
        return Verdict::Ambiguous(out);
    }
    let e = &entries[places[0]];
    assert(menu_rows(entries@)[places@[0] as int] == e@);
    if hide_it && e.is_windows_builtin() {
        let mut out = "'".to_string();
        out.append(e.text.as_str());
        out.append("' looks like a Windows built-in entry, refusing to disable it");
        return Verdict::Fail(out);
    }
    Verdict::Write(
        places[0],
        if hide_it {
            disable(e)
        } else {
            enable(e)
        },
    )
}

/// What is said when a change worked.
pub open spec fn done_text(text: Seq<char>, hide_it: bool, on: bool) -> Seq<char> {
    painted(on, "32"@, "✓"@) + " "@ + (if hide_it {
        "disabled"@
    } else {
        "restored"@
    }) + " '"@ + text + "'\n"@ + painted(
        on,
        "2"@,
        "takes effect for new Explorer windows; restart Explorer to apply everywhere"@,
    ) + "\n"@
}

/// What is said when a change worked.
pub fn done(entry: &MenuEntry, hide_it: bool, style: &Style) -> (r: String)
    ensures
        r@ == done_text(entry@.text, hide_it, style.on),
{
    let mut out = style.green("✓");
    out.append(" ");
    out.append(
        if hide_it {
            "disabled"
        } else {
            "restored"
        },
    );
    out.append(" '");
    out.append(entry.text.as_str());
    out.append("'\n");
    out.append(
        style.dim(
            "takes effect for new Explorer windows; restart Explorer to apply everywhere",
        ).as_str(),
    );
    out.append("\n");
    out
}

// ---------------------------------------------------------------------------
// Listing
// ---------------------------------------------------------------------------

/// The rows of an entry.
pub open spec fn list_row(e: MenuRow, on: bool) -> Seq<char> {
    "  "@ + (if e.disabled {
        painted(on, "33"@, "off"@)
    } else {
        painted(on, "32"@, " on"@)
    }) + "  "@ + left_aligned(truncated(e.text, 34), 34) + " "@ + left_aligned(
        painted(on, "2"@, e.kind.label_text()),
        8,
    ) + (if is_builtin(e) {
        painted(on, "2"@, " [windows]"@)
    } else {
        seq![]
    }) + "\n"@ + (if e.detail.len() == 0 {
        seq![]
    } else {
        "       "@ + painted(on, "2"@, truncated(e.detail, 90)) + "\n"@
    })
}

/// The rows of the entries of a scope.
pub open spec fn scope_rows(entries: Seq<MenuRow>, scope: Scope, on: bool) -> Seq<char>
    decreases entries.len(),
{
    if entries.len() == 0 {
        seq![]
    } else {
        scope_rows(entries.drop_last(), scope, on) + (if entries.last().scope == scope {
            list_row(entries.last(), on)
        } else {
            seq![]
        })
    }
}

/// An entry shows up in the scope.
pub open spec fn scope_used(entries: Seq<MenuRow>, scope: Scope) -> bool {
    exists|i: int| 0 <= i < entries.len() && (#[trigger] entries[i]).scope == scope
}

/// The part of a scope: its heading and its entries, nothing where it has none.
pub open spec fn scope_part(entries: Seq<MenuRow>, scope: Scope, on: bool) -> Seq<char> {
    if scope_used(entries, scope) {
        "\n"@ + painted(on, "1"@, painted(on, "36"@, scope.label_text())) + "\n"@ + scope_rows(
            entries,
            scope,
            on,
        )
    } else {
        seq![]
    }
}

/// The parts of a list of scopes.
pub open spec fn scope_parts(entries: Seq<MenuRow>, scopes: Seq<Scope>, on: bool) -> Seq<char>
    decreases scopes.len(),
{
    if scopes.len() == 0 {
        seq![]
    } else {
        scope_parts(entries, scopes.drop_last(), on) + scope_part(entries, scopes.last(), on)
    }
}

/// The list of all entries.
pub open spec fn list_text(entries: Seq<MenuRow>, on: bool) -> Seq<char> {
    painted(on, "1"@, "Context menu"@) + "  "@ + painted(
        on,
        "2"@,
        "("@ + decimal(entries.len()) + " entries)"@,
    ) + "\n"@ + scope_parts(entries, all_scopes(), on) + "\n"@ + painted(
        on,
        "2"@,
        "dpan ctxmenu off <name> hides an entry · on <name> restores it · no admin needed"@,
    ) + "\n"@
}

fn render_row(e: &MenuEntry, style: &Style) -> (r: String)
    ensures
        r@ == list_row(e@, style.on),
{
    let status = if e.disabled {
        style.yellow("off")
    } else {
        style.green(" on")
    };
    let tag = if e.is_windows_builtin() {
        style.dim(" [windows]")
    } else {
        no_text()
    };
    let mut out = "  ".to_string();
    out.append(status.as_str());
    out.append("  ");
    out.append(align_left(truncate(e.text.as_str(), 34).as_str(), 34).as_str());
    out.append(" ");
    out.append(align_left(style.dim(e.kind.label()).as_str(), 8).as_str());
    out.append(tag.as_str());
    out.append("\n");
    let detail = if chars_of(e.detail.as_str()).len() == 0 {
        no_text()
    } else {
        let mut s = "       ".to_string();
        s.append(style.dim(truncate(e.detail.as_str(), 90).as_str()).as_str());
        s.append("\n");
        s
    };
    out.append(detail.as_str());
    out
}

fn render_scope(entries: &Vec<MenuEntry>, scope: Scope, style: &Style) -> (r: String)
    ensures
        r@ == scope_part(menu_rows(entries@), scope, style.on),
{
    let ghost all = menu_rows(entries@);
    let mut used = false;
    let mut rows = no_text();
    assert(all.take(0) =~= Seq::<MenuRow>::empty());
    for i in 0..entries.len()
        invariant
            all == menu_rows(entries@),
            rows@ == scope_rows(all.take(i as int), scope, style.on),
            used == exists|j: int| 0 <= j < i && (#[trigger] all[j]).scope == scope,
    {
        assert(all.take(i + 1).drop_last() =~= all.take(i as int));
        assert(all.take(i + 1).last() == entries@[i as int]@);
        assert(all[i as int] == entries@[i as int]@);
        let row = if entries[i].scope == scope {
            used = true;
            render_row(&entries[i], style)
        } else {
            no_text()
        };
        rows.append(row.as_str());
    }
    assert(all.take(all.len() as int) =~= all);
    if !used {
        return no_text();
    }
    let mut out = "\n".to_string();
    let heading = style.cyan(scope.label());
    out.append(style.bold(heading.as_str()).as_str());
    out.append("\n");
    out.append(rows.as_str());
    out
}

/// The list of all entries.
pub fn print_list(entries: &Vec<MenuEntry>, style: &Style) -> (r: String)
    ensures
        r@ == list_text(menu_rows(entries@), style.on),
{
    let scopes = Scope::ALL;
    let ghost all = all_scopes();
    assert(scopes@ =~= all);
    let mut count = "(".to_string();
    count.append(decimal_of(entries.len() as u64).as_str());
    count.append(" entries)");
    let mut out = style.bold("Context menu");
    out.append("  ");
    out.append(style.dim(count.as_str()).as_str());
    out.append("\n");
    let mut parts = no_text();
    assert(all.take(0) =~= Seq::<Scope>::empty());
    for i in 0..6
        invariant
            all == all_scopes(),
            scopes@ == all,
            parts@ == scope_parts(menu_rows(entries@), all.take(i as int), style.on),
    {
        assert(all.take(i + 1).drop_last() =~= all.take(i as int));
        assert(all.take(i + 1).last() == scopes@[i as int]);
        parts.append(render_scope(entries, scopes[i], style).as_str());
    }
    assert(all.take(6) =~= all);
    out.append(parts.as_str());
    out.append("\n");
    out.append(
        style.dim(
            "dpan ctxmenu off <name> hides an entry · on <name> restores it · no admin needed",
        ).as_str(),
    );
    out.append("\n");
    out
}

/// The entry as a JSON object.
pub open spec fn json_entry(e: MenuRow) -> Seq<char> {
    "{\"id\":\""@ + json_escaped(e.id) + "\",\"text\":\""@ + json_escaped(e.text)
        + "\",\"scope\":\""@ + e.scope.label_text() + "\",\"kind\":\""@ + e.kind.label_text()
        + "\",\"clsid\":\""@ + json_escaped(e.clsid) + "\",\"detail\":\""@ + json_escaped(
        e.detail,
    ) + "\",\"disabled\":"@ + bool_text(e.disabled) + "}"@
}

fn render_json(e: &MenuEntry) -> (r: String)
    ensures
        r@ == json_entry(e@),
{
    let mut out = "{\"id\":\"".to_string();
    out.append(json_escape(e.id.as_str()).as_str());
    out.append("\",\"text\":\"");
    out.append(json_escape(e.text.as_str()).as_str());
    out.append("\",\"scope\":\"");
    out.append(e.scope.label());
    out.append("\",\"kind\":\"");
    out.append(e.kind.label());
    out.append("\",\"clsid\":\"");
    out.append(json_escape(e.clsid.as_str()).as_str());
    out.append("\",\"detail\":\"");
    out.append(json_escape(e.detail.as_str()).as_str());
    out.append("\",\"disabled\":");
    out.append(bool_word(e.disabled));
    out.append("}");
    out
}

/// All entries as JSON.
pub fn print_json(entries: &Vec<MenuEntry>) -> (r: String)
    ensures
        r@ == "["@ + joined(
            menu_rows(entries@).map_values(|e: MenuRow| json_entry(e)),
            ","@,
        ) + "]"@,
{
    let ghost all = menu_rows(entries@).map_values(|e: MenuRow| json_entry(e));
    let mut parts = no_texts();
    assert(texts(parts@) =~= all.take(0));
    for i in 0..entries.len()
        invariant
            all == menu_rows(entries@).map_values(|e: MenuRow| json_entry(e)),
            texts(parts@) == all.take(i as int),
    {
        let s = render_json(&entries[i]);
        assert(s@ == all[i as int]);
        push_text(&mut parts, s);
        assert(texts(parts@) =~= all.take(i + 1));
    }
    assert(all.take(all.len() as int) =~= all);
    let mut out = "[".to_string();
    out.append(join(&parts, ",").as_str());
    out.append("]");
    out
}

// ---------------------------------------------------------------------------
// Laws
// ---------------------------------------------------------------------------

/// The tree of the classes that the entries of a scope live under.
pub open spec fn is_tree_of(tree: Seq<char>, scope: Scope) -> bool {
    ||| scope == Scope::Files && tree == "*"@
    ||| scope == Scope::Directory && tree == "Directory"@
    ||| scope == Scope::Background && tree == "Directory\\Background"@
    ||| scope == Scope::Folder && tree == "Folder"@
    ||| scope == Scope::Drive && tree == "Drive"@
    ||| scope == Scope::AllObjects && tree == "AllFilesystemObjects"@
}

/// No two scopes share a tree: each is read from its own, and so no entry is listed for two of them. The
/// tree of the folder background stands below that of directories. Every scope is listed once.
pub proof fn scopes_live_in_trees_of_their_own(a: Scope, b: Scope)
    ensures
        a != b ==> a.path_text() != b.path_text(),
        a != b ==> a.label_text() != b.label_text(),
        Scope::Background.path_text() == Scope::Directory.path_text() + seq!['\\'] + "Background"@,
        exists|i: int| 0 <= i < all_scopes().len() && #[trigger] all_scopes()[i] == a,
        forall|i: int, j: int|
            0 <= i < j < all_scopes().len() ==> #[trigger] all_scopes()[i]
                != #[trigger] all_scopes()[j],
{
    reveal_strlit("*");
    reveal_strlit("Directory");
    reveal_strlit("Directory\\Background");
    reveal_strlit("Background");
    reveal_strlit("Folder");
    reveal_strlit("Drive");
    reveal_strlit("AllFilesystemObjects");
    reveal_strlit("files");
    reveal_strlit("directories");
    reveal_strlit("folder background");
    reveal_strlit("folders");
    reveal_strlit("drives");
    reveal_strlit("all objects");
    assert("*"@.len() == 1 && "Directory"@.len() == 9 && "Directory\\Background"@.len() == 20
        && "Folder"@.len() == 6 && "Drive"@.len() == 5 && "AllFilesystemObjects"@.len() == 20);
    assert("Directory\\Background"@[0] == 'D' && "AllFilesystemObjects"@[0] == 'A');
    assert("files"@.len() == 5 && "directories"@.len() == 11 && "folder background"@.len() == 17
        && "folders"@.len() == 7 && "drives"@.len() == 6 && "all objects"@.len() == 11);
    assert("directories"@[0] == 'd' && "all objects"@[0] == 'a');
    assert("Directory\\Background"@ =~= "Directory"@ + seq!['\\'] + "Background"@);
    let all = all_scopes();
    assert(all[0] == Scope::Files && all[1] == Scope::Directory && all[2] == Scope::Background
        && all[3] == Scope::Folder && all[4] == Scope::Drive && all[5] == Scope::AllObjects);
}

proof fn lemma_tree(tree: Seq<char>, scope: Scope)
    requires
        is_tree_of(tree, scope),
    ensures
        scope.path_text() == tree,
{
}

proof fn lemma_scope_place(scope: Scope, w: ClassWorld, m: int) -> (k: int)
    requires
        0 <= m < scope_entries(scope, w).len(),
    ensures
        0 <= k < entries_of(all_scopes(), w).len(),
        entries_of(all_scopes(), w)[k] == scope_entries(scope, w)[m],
{
    scopes_live_in_trees_of_their_own(scope, scope);
    let i = choose|i: int| 0 <= i < all_scopes().len() && #[trigger] all_scopes()[i] == scope;
    lemma_entry_place(all_scopes(), w, i, m)
}

proof fn lemma_entry_place(scopes: Seq<Scope>, w: ClassWorld, i: int, m: int) -> (k: int)
    requires
        0 <= i < scopes.len(),
        0 <= m < scope_entries(scopes[i], w).len(),
    ensures
        0 <= k < entries_of(scopes, w).len(),
        entries_of(scopes, w)[k] == scope_entries(scopes[i], w)[m],
    decreases scopes.len(),
{
    if i < scopes.len() - 1 {
        assert(scopes.drop_last()[i] == scopes[i]);
        lemma_entry_place(scopes.drop_last(), w, i, m)
    } else {
        entries_of(scopes.drop_last(), w).len() + m
    }
}

proof fn lemma_handler_place(scope: Scope, names: Seq<Seq<char>>, w: ClassWorld, i: int) -> (m: int)
    requires
        0 <= i < names.len(),
        handler_entry(scope, names[i], w).len() == 1,
    ensures
        0 <= m < handler_entries(scope, names, w).len(),
        handler_entries(scope, names, w)[m] == handler_entry(scope, names[i], w)[0],
    decreases names.len(),
{
    if i < names.len() - 1 {
        assert(names.drop_last()[i] == names[i]);
        lemma_handler_place(scope, names.drop_last(), w, i)
    } else {
        handler_entries(scope, names.drop_last(), w).len() as int
    }
}

proof fn lemma_verb_place(scope: Scope, names: Seq<Seq<char>>, w: ClassWorld, i: int) -> (m: int)
    requires
        0 <= i < names.len(),
        verb_entry(scope, names[i], w).len() == 1,
    ensures
        0 <= m < verb_entries(scope, names, w).len(),
        verb_entries(scope, names, w)[m] == verb_entry(scope, names[i], w)[0],
    decreases names.len(),
{
    if i < names.len() - 1 {
        assert(names.drop_last()[i] == names[i]);
        lemma_verb_place(scope, names.drop_last(), w, i)
    } else {
        verb_entries(scope, names.drop_last(), w).len() as int
    }
}

/// A class id as the registry writes it: braces round 36 hexadecimal digits and hyphens.
pub open spec fn is_class(s: Seq<char>) -> bool {
    &&& s.len() == 38
    &&& s[0] == '{'
    &&& s[37] == '}'
    &&& forall|i: int|
        1 <= i < 37 ==> '0' <= #[trigger] s[i] <= '9' || 'a' <= s[i] <= 'f' || 'A' <= s[i] <= 'F'
            || s[i] == '-'
}

proof fn lemma_class(s: Seq<char>)
    requires
        is_class(s),
    ensures
        is_clsid(s),
{
    crate::text::lemma_nothing_to_trim(s);
}

/// Every handler with a class is listed, under its own name and for the scope that it is registered for,
/// with the class that its value names, or else its name; and it is shown as hidden exactly where that
/// class is blocked.
pub proof fn handlers_are_listed_for_their_scope(
    w: ClassWorld,
    tree: Seq<char>,
    scope: Scope,
    names: Seq<Seq<char>>,
    i: int,
    value: Seq<char>,
) -> (k: int)
    requires
        is_tree_of(tree, scope),
        (w.keys)(tree + "\\shellex\\ContextMenuHandlers"@) == Some(names),
        0 <= i < names.len(),
        (w.values)(
            tree + "\\shellex\\ContextMenuHandlers"@ + "\\"@ + names[i],
            ""@,
        ) == Some(value),
        is_class(value) || (is_class(names[i]) && value.len() == 0),
    ensures
        0 <= k < entries_of(all_scopes(), w).len(),
        ({
            let e = entries_of(all_scopes(), w)[k];
            let class = if value.len() > 0 {
                value
            } else {
                names[i]
            };
            &&& e.id == names[i]
            &&& e.scope == scope
            &&& e.kind == Kind::Handler
            &&& e.clsid == class
            &&& e.disabled == (w.blocked)(class)
        }),
{
    lemma_tree(tree, scope);
    if value.len() > 0 {
        lemma_class(value);
    } else {
        lemma_class(names[i]);
        crate::text::lemma_nothing_to_trim(value);
    }
    let m = lemma_handler_place(scope, names, w, i);
    let verbs = verb_entries(scope, keys_below(tree + "\\shell"@, w), w);
    lemma_scope_place(scope, w, verbs.len() + m)
}

/// Every verb is listed, under its own name and for the scope that it is registered for; it is shown as
/// hidden exactly where its key has the value that hides it.
pub proof fn verbs_are_listed_for_their_scope(
    w: ClassWorld,
    tree: Seq<char>,
    scope: Scope,
    names: Seq<Seq<char>>,
    i: int,
) -> (k: int)
    requires
        is_tree_of(tree, scope),
        (w.keys)(tree + "\\shell"@) == Some(names),
        0 <= i < names.len(),
        (w.values)(tree + "\\shell"@ + "\\"@ + names[i], "MUIVerb"@) is Some,
    ensures
        0 <= k < entries_of(all_scopes(), w).len(),
        ({
            let e = entries_of(all_scopes(), w)[k];
            &&& e.id == names[i]
            &&& e.scope == scope
            &&& e.kind == Kind::Verb
            &&& e.disabled == (w.flags)(
                tree + "\\shell"@ + "\\"@ + names[i],
                "LegacyDisable"@,
            )
            &&& ((w.values)(
                tree + "\\shell"@ + "\\"@ + names[i] + "\\"@ + "command"@,
                ""@,
            ) matches Some(command) ==> e.detail == command)
        }),
{
    lemma_tree(tree, scope);
    let m = lemma_verb_place(scope, names, w, i);
    lemma_scope_place(scope, w, m)
}

/// Nothing is listed that the registry does not hold: every entry is a verb or a handler that is
/// registered, under its name, for the scope it is listed for.
pub proof fn listed_entries_are_registered(w: ClassWorld, k: int)
    requires
        0 <= k < entries_of(all_scopes(), w).len(),
    ensures
        ({
            let e = entries_of(all_scopes(), w)[k];
            let key = e.scope.path_text() + (if e.kind == Kind::Verb {
                "\\shell"@
            } else {
                "\\shellex\\ContextMenuHandlers"@
            });
            (w.keys)(key) matches Some(names) && names.contains(e.id)
        }),
{
    lemma_registered_all(all_scopes(), w, k);
}

proof fn lemma_registered_all(scopes: Seq<Scope>, w: ClassWorld, k: int)
    requires
        0 <= k < entries_of(scopes, w).len(),
    ensures
        ({
            let e = entries_of(scopes, w)[k];
            let key = e.scope.path_text() + (if e.kind == Kind::Verb {
                "\\shell"@
            } else {
                "\\shellex\\ContextMenuHandlers"@
            });
            (w.keys)(key) matches Some(names) && names.contains(e.id)
        }),
    decreases scopes.len(),
{
    let front = entries_of(scopes.drop_last(), w);
    if k < front.len() {
        lemma_registered_all(scopes.drop_last(), w, k);
    } else {
        let scope = scopes.last();
        let a = keys_below(scope.path_text() + "\\shell"@, w);
        let b = keys_below(scope.path_text() + "\\shellex\\ContextMenuHandlers"@, w);
        let verbs = verb_entries(scope, a, w);
        let m = k - front.len();
        if m < verbs.len() {
            lemma_registered_verb(scope, a, w, m);
        } else {
            lemma_registered_handler(scope, b, w, m - verbs.len());
        }
    }
}

proof fn lemma_registered_verb(scope: Scope, names: Seq<Seq<char>>, w: ClassWorld, m: int)
    requires
        0 <= m < verb_entries(scope, names, w).len(),
    ensures
        verb_entries(scope, names, w)[m].scope == scope,
        verb_entries(scope, names, w)[m].kind == Kind::Verb,
        names.contains(verb_entries(scope, names, w)[m].id),
    decreases names.len(),
{
    let front = verb_entries(scope, names.drop_last(), w);
    if m < front.len() {
        lemma_registered_verb(scope, names.drop_last(), w, m);
        let i = choose|i: int| 0 <= i < names.drop_last().len() && names.drop_last()[i] == front[m].id;
        assert(names[i] == front[m].id);
    } else {
        assert(names[names.len() - 1] == verb_entries(scope, names, w)[m].id);
    }
}

proof fn lemma_registered_handler(scope: Scope, names: Seq<Seq<char>>, w: ClassWorld, m: int)
    requires
        0 <= m < handler_entries(scope, names, w).len(),
    ensures
        handler_entries(scope, names, w)[m].scope == scope,
        handler_entries(scope, names, w)[m].kind == Kind::Handler,
        names.contains(handler_entries(scope, names, w)[m].id),
    decreases names.len(),
{
    let front = handler_entries(scope, names.drop_last(), w);
    if m < front.len() {
        lemma_registered_handler(scope, names.drop_last(), w, m);
        let i = choose|i: int| 0 <= i < names.drop_last().len() && names.drop_last()[i] == front[m].id;
        assert(names[i] == front[m].id);
    } else {
        assert(names[names.len() - 1] == handler_entries(scope, names, w)[m].id);
    }
}

/// Scopes are read one by one and in order; so are the keys of a scope.
pub proof fn scopes_are_read_one_by_one(
    a: Seq<Scope>,
    b: Seq<Scope>,
    w: ClassWorld,
)
    ensures
        entries_of(a + b, w) == entries_of(a, w) + entries_of(b, w),
    decreases b.len(),
{
    if b.len() > 0 {
        scopes_are_read_one_by_one(a, b.drop_last(), w);
        assert((a + b).drop_last() =~= a + b.drop_last());
        let x = entries_of(a, w);
        let y = entries_of(b.drop_last(), w);
        let z = scope_entries(b.last(), w);
        assert(x + y + z =~= x + (y + z));
    } else {
        assert(a + b =~= a);
        assert(entries_of(a, w) + entries_of(b, w) =~= entries_of(a, w));
    }
}

/// The text of an entry is what the menu shows: a text that is neither blank nor a reference into a
/// resource keeps everything but its access-key marks; a reference, or nothing, gives the name.
pub proof fn menu_texts_lose_their_marks(raw: Seq<char>, fallback: Seq<char>)
    requires
        raw.len() > 0 ==> !crate::text::is_space(raw[0]) && !crate::text::is_space(raw.last()),
    ensures
        raw.len() == 0 || raw[0] == '@' ==> menu_text(raw, fallback) == fallback,
        raw.len() > 0 && raw[0] != '@' ==> menu_text(raw, fallback) == raw.filter(
            |c: char| c != '&',
        ),
{
    crate::text::lemma_nothing_to_trim(raw);
    crate::text::dropping_leaves_the_others(raw, '&');
    reveal_strlit("@");
    assert("@"@.len() == 1 && "@"@[0] == '@');
    if raw.len() > 0 {
        assert(raw.subrange(0, 1)[0] == raw[0]);
        if raw[0] == '@' {
            assert(raw.subrange(0, 1) =~= "@"@);
        }
    }
}

/// What hides an entry is what it is read by. The change that hides a verb is made to the user's copy of
/// the very value that tells whether the verb is hidden; a handler is put on the block list under the
/// class by which it is looked up there; and to restore them the same value is deleted.
pub proof fn hiding_writes_what_listing_reads(scope: Scope, name: Seq<char>, w: ClassWorld)
    ensures
        verb_entry(scope, name, w).len() > 0 ==> ({
            let e = verb_entry(scope, name, w)[0];
            let key = scope.path_text() + "\\shell\\"@ + name;
            &&& e.disabled == (w.flags)(key, hiding(e).name)
            &&& hiding(e).path == "Software\\Classes\\"@ + key
            &&& hiding(e).data is Some
            &&& restoring(e) == WriteRow { data: None, ..hiding(e) }
        }),
        handler_entry(scope, name, w).len() > 0 ==> ({
            let e = handler_entry(scope, name, w)[0];
            &&& e.disabled == (w.blocked)(hiding(e).name)
            &&& hiding(e).path
                == "Software\\Microsoft\\Windows\\CurrentVersion\\Shell Extensions\\Blocked"@
            &&& hiding(e).data is Some
            &&& restoring(e) == WriteRow { data: None, ..hiding(e) }
        }),
{
    reveal_strlit("\\shell\\");
    reveal_strlit("\\shell");
    reveal_strlit("\\");
    let tree = scope.path_text();
    assert(tree + "\\shell"@ + "\\"@ + name =~= tree + "\\shell\\"@ + name);
    if verb_entry(scope, name, w).len() > 0 {
        let e = verb_entry(scope, name, w)[0];
        assert(hiding(e).path =~= "Software\\Classes\\"@ + (tree + "\\shell\\"@ + name));
    }
}

/// What the user names is changed: where exactly one entry answers, it is hidden, unless it belongs to
/// Windows, and it is restored in any case.
pub proof fn the_named_entry_is_changed(
    entries: Seq<MenuRow>,
    filter: Seq<char>,
    on: bool,
    k: int,
)
    requires
        entries.len() <= usize::MAX,
        0 <= k < entries.len(),
        answers_to(entries[k], filter),
        forall|j: int| 0 <= j < entries.len() && answers_to(#[trigger] entries[j], filter) ==> j == k,
    ensures
        judged(entries, filter, false, on) == VerdictRow::Write(k, restoring(entries[k])),
        !is_builtin(entries[k]) ==> judged(entries, filter, true, on) == VerdictRow::Write(
            k,
            hiding(entries[k]),
        ),
        is_builtin(entries[k]) ==> judged(entries, filter, true, on) is Fail,
{
    lemma_matching(entries, filter);
    lemma_only_matching(entries, filter);
    let places = matching(entries, filter);
    assert(places.contains(k as usize));
    let i = choose|i: int| 0 <= i < places.len() && places[i] == k as usize;
    if places.len() > 1 {
        let j: int = if i == 0 {
            1
        } else {
            0
        };
        assert(answers_to(entries[places[j] as int], filter));
        assert(places[j] == places[i]);
    }
}

proof fn lemma_only_matching(entries: Seq<MenuRow>, filter: Seq<char>)
    requires
        entries.len() <= usize::MAX,
    ensures
        forall|i: int|
            0 <= i < matching(entries, filter).len() ==> {
                let p = #[trigger] matching(entries, filter)[i];
                p < entries.len() && answers_to(entries[p as int], filter)
            },
        forall|i: int, j: int|
            0 <= i < j < matching(entries, filter).len() ==> #[trigger] matching(entries, filter)[i]
                < #[trigger] matching(entries, filter)[j],
    decreases entries.len(),
{
    if entries.len() > 0 {
        let front = entries.drop_last();
        lemma_only_matching(front, filter);
        let all = matching(entries, filter);
        let some = matching(front, filter);
        assert forall|i: int| 0 <= i < all.len() implies {
            let p = #[trigger] all[i];
            p < entries.len() && answers_to(entries[p as int], filter)
        } by {
            if i < some.len() {
                assert(all[i] == some[i]);
                assert(front[some[i] as int] == entries[some[i] as int]);
            }
        }
        assert forall|i: int, j: int| 0 <= i < j < all.len() implies #[trigger] all[i]
            < #[trigger] all[j] by {
            assert(all[i] == some[i]);
            if j < some.len() {
                assert(all[j] == some[j]);
            }
        }
    }
}

/// An entry answers to whatever stands in its name or its text, case aside.
pub proof fn entries_answer_to_their_words(
    e: MenuRow,
    front: Seq<char>,
    part: Seq<char>,
    back: Seq<char>,
    needle: Seq<char>,
)
    requires
        all_ascii(front),
        all_ascii(part),
        all_ascii(back),
        folded(part) == folded(needle),
        e.id == front + part + back || e.text == front + part + back,
    ensures
        answers_to(e, needle),
{
    crate::text::parts_are_found_in_any_case(front, part, back, needle);
}

/// The place is one of Windows' own: its two system directories, under the directory of Windows or
/// under one of the variables that name it.
pub open spec fn is_system_place(place: Seq<char>) -> bool {
    ||| place == "\\windows\\system32"@
    ||| place == "\\windows\\syswow64"@
    ||| place == "%systemroot%\\system32"@
    ||| place == "%systemroot%\\syswow64"@
    ||| place == "%windir%\\system32"@
    ||| place == "%windir%\\syswow64"@
}

/// Whatever runs from a system directory of Windows, case aside, belongs to Windows, and an entry whose
/// program or library lies in none of them does not.
pub proof fn system_programs_belong_to_windows(
    e: MenuRow,
    front: Seq<char>,
    part: Seq<char>,
    back: Seq<char>,
    place: Seq<char>,
)
    requires
        all_ascii(front),
        all_ascii(part),
        all_ascii(back),
        is_system_place(place),
        folded(part) == folded(place),
    ensures
        e.detail == front + part + back ==> is_builtin(e),
        (forall|p: Seq<char>| #[trigger]
            is_system_place(p) ==> !contains(folded(e.detail), p)) ==> !is_builtin(e),
{
    reveal_strlit("\\windows\\system32");
    reveal_strlit("\\windows\\syswow64");
    reveal_strlit("%systemroot%\\system32");
    reveal_strlit("%systemroot%\\syswow64");
    reveal_strlit("%windir%\\system32");
    reveal_strlit("%windir%\\syswow64");
    assert(folded(place) =~= place);
    crate::text::parts_are_found_in_any_case(front, part, back, place);
    assert(is_system_place("\\windows\\system32"@) && is_system_place("\\windows\\syswow64"@)
        && is_system_place("%systemroot%\\system32"@) && is_system_place(
        "%systemroot%\\syswow64"@,
    ) && is_system_place("%windir%\\system32"@) && is_system_place("%windir%\\syswow64"@));
}

/// The values below `HKEY_CURRENT_USER`, by the path of their key and their name.
pub type UserValues = Map<(Seq<char>, Seq<char>), Seq<char>>;

/// The values after a change.
pub open spec fn applied(values: UserValues, w: WriteRow) -> UserValues {
    match w.data {
        Some(d) => values.insert((w.path, w.name), d),
        None => values.remove((w.path, w.name)),
    }
}

/// Hiding an entry and restoring it leaves the user's values as they were.
pub proof fn restoring_undoes_hiding(e: MenuRow, values: UserValues)
    requires
        !values.contains_key((hiding(e).path, hiding(e).name)),
    ensures
        applied(applied(values, hiding(e)), restoring(e)) == values,
{
    assert(applied(applied(values, hiding(e)), restoring(e)) =~= values);
}

/// A change touches one value and leaves every other alone.
pub proof fn changes_touch_one_value(w: WriteRow, values: UserValues, key: (Seq<char>, Seq<char>))
    requires
        key != (w.path, w.name),
    ensures
        applied(values, w).contains_key(key) == values.contains_key(key),
        values.contains_key(key) ==> applied(values, w)[key] == values[key],
{
}

/// What belongs to Windows is never hidden, however it is asked for.
pub proof fn windows_entries_are_never_hidden(
    entries: Seq<MenuRow>,
    filter: Seq<char>,
    on: bool,
)
    ensures
        judged(entries, filter, true, on) matches VerdictRow::Write(i, w) ==> 0 <= i < entries.len()
            && !is_builtin(entries[i]) && w == hiding(entries[i]),
{
    lemma_matching(entries, filter);
}

/// A change is made only where exactly one entry answers.
pub proof fn only_one_entry_is_changed(
    entries: Seq<MenuRow>,
    filter: Seq<char>,
    hide_it: bool,
    on: bool,
    i: int,
    k: int,
)
    requires
        judged(entries, filter, hide_it, on) matches VerdictRow::Write(p, _) && p == i,
        0 <= k < entries.len(),
        entries.len() <= usize::MAX,
        answers_to(entries[k], filter),
    ensures
        k == i,
{
    lemma_matching(entries, filter);
    let places = matching(entries, filter);
    assert(places.contains(k as usize));
}

proof fn lemma_matching(entries: Seq<MenuRow>, filter: Seq<char>)
    ensures
        forall|i: int|
            0 <= i < matching(entries, filter).len() && entries.len() <= usize::MAX
                ==> (#[trigger] matching(entries, filter)[i]) < entries.len(),
        forall|k: int|
            0 <= k < entries.len() && entries.len() <= usize::MAX && answers_to(
                #[trigger] entries[k],
                filter,
            ) ==> matching(entries, filter).contains(k as usize),
    decreases entries.len(),
{
    if entries.len() > 0 {
        let front = entries.drop_last();
        lemma_matching(front, filter);
        let all = matching(entries, filter);
        let some = matching(front, filter);
        assert forall|k: int|
            0 <= k < entries.len() && entries.len() <= usize::MAX && answers_to(
                #[trigger] entries[k],
                filter,
            ) implies all.contains(k as usize) by {
            if k < front.len() {
                assert(front[k] == entries[k]);
                assert(some.contains(k as usize));
                let j = choose|j: int| 0 <= j < some.len() && some[j] == k as usize;
                assert(all[j] == k as usize);
            } else {
                assert(all[all.len() - 1] == k as usize);
            }
        }
    }
}

proof fn lemma_row_shown(entries: Seq<MenuRow>, on: bool, i: int)
    requires
        0 <= i < entries.len(),
    ensures
        contains(scope_rows(entries, entries[i].scope, on), list_row(entries[i], on)),
    decreases entries.len(),
{
    let scope = entries[i].scope;
    let front = scope_rows(entries.drop_last(), scope, on);
    let row = list_row(entries[i], on);
    let none = Seq::<char>::empty();
    if i < entries.len() - 1 {
        assert(entries.drop_last()[i] == entries[i]);
        lemma_row_shown(entries.drop_last(), on, i);
        let more = if entries.last().scope == scope {
            list_row(entries.last(), on)
        } else {
            none
        };
        crate::text::parts_stand_in_the_whole(none, front, more, row);
        assert(none + front + more =~= scope_rows(entries, scope, on));
    } else {
        crate::text::parts_stand_in_the_whole(front, row, none, row);
        assert(front + row + none =~= scope_rows(entries, scope, on));
    }
}

proof fn lemma_part_shown(entries: Seq<MenuRow>, scopes: Seq<Scope>, on: bool, k: int, p: Seq<char>)
    requires
        0 <= k < scopes.len(),
        contains(scope_part(entries, scopes[k], on), p),
    ensures
        contains(scope_parts(entries, scopes, on), p),
    decreases scopes.len(),
{
    let front = scope_parts(entries, scopes.drop_last(), on);
    let last = scope_part(entries, scopes.last(), on);
    let none = Seq::<char>::empty();
    if k < scopes.len() - 1 {
        assert(scopes.drop_last()[k] == scopes[k]);
        lemma_part_shown(entries, scopes.drop_last(), on, k, p);
        crate::text::parts_stand_in_the_whole(none, front, last, p);
        assert(none + front + last =~= scope_parts(entries, scopes, on));
    } else {
        crate::text::parts_stand_in_the_whole(front, last, none, p);
        assert(front + last + none =~= scope_parts(entries, scopes, on));
    }
}

proof fn lemma_scope_part_holds(entries: Seq<MenuRow>, scope: Scope, on: bool, p: Seq<char>)
    requires
        scope_used(entries, scope),
    ensures
        contains(scope_rows(entries, scope, on), p) ==> contains(scope_part(entries, scope, on), p),
        contains(scope_part(entries, scope, on), scope.label_text()),
{
    let none = Seq::<char>::empty();
    let rows = scope_rows(entries, scope, on);
    let inner = painted(on, "36"@, scope.label_text());
    let head = painted(on, "1"@, inner);
    let front = "\n"@ + head + "\n"@;
    let part = scope_part(entries, scope, on);
    lemma_painted(on, "36"@, scope.label_text());
    lemma_painted(on, "1"@, inner);
    lemma_contains_trans(head, inner, scope.label_text());
    crate::text::parts_stand_in_the_whole("\n"@, head, "\n"@, scope.label_text());
    assert(front + rows + none =~= front + rows);
    assert(none + front + rows =~= front + rows);
    crate::text::parts_stand_in_the_whole(front, rows, none, p);
    crate::text::parts_stand_in_the_whole(none, front, rows, scope.label_text());
}

proof fn lemma_list_holds(entries: Seq<MenuRow>, on: bool)
    ensures
        contains(list_text(entries, on), scope_parts(entries, all_scopes(), on)),
{
    let n = (painted(on, "1"@, "Context menu"@) + "  "@ + painted(
        on,
        "2"@,
        "("@ + decimal(entries.len()) + " entries)"@,
    ) + "\n"@).len() as int;
    let parts = scope_parts(entries, all_scopes(), on);
    let text = list_text(entries, on);
    assert(text.subrange(n, n + parts.len()) =~= parts);
    assert(crate::text::occurs_at(text, parts, n));
}

/// What tells whether an entry is hidden.
pub open spec fn state_text(disabled: bool, on: bool) -> Seq<char> {
    if disabled {
        painted(on, "33"@, "off"@)
    } else {
        painted(on, "32"@, " on"@)
    }
}

proof fn lemma_row_tells(e: MenuRow, on: bool)
    ensures
        contains(
            list_row(e, on),
            "  "@ + state_text(e.disabled, on) + "  "@ + left_aligned(truncated(e.text, 34), 34),
        ),
{
    let seen = "  "@ + state_text(e.disabled, on) + "  "@ + left_aligned(truncated(e.text, 34), 34);
    let row = list_row(e, on);
    assert(row.subrange(0, seen.len() as int) =~= seen);
    assert(crate::text::occurs_at(row, seen, 0));
}

/// Every entry is shown in the list, under the heading of its scope, with its text and with whether it is
/// hidden.
pub proof fn every_entry_is_shown(entries: Seq<MenuRow>, on: bool, i: int)
    requires
        0 <= i < entries.len(),
    ensures
        contains(
            list_text(entries, on),
            "  "@ + state_text(entries[i].disabled, on) + "  "@ + left_aligned(
                truncated(entries[i].text, 34),
                34,
            ),
        ),
        contains(list_text(entries, on), entries[i].scope.label_text()),
{
    let e = entries[i];
    let row = list_row(e, on);
    let seen = "  "@ + state_text(e.disabled, on) + "  "@ + left_aligned(truncated(e.text, 34), 34);
    lemma_row_shown(entries, on, i);
    scopes_live_in_trees_of_their_own(e.scope, e.scope);
    let k = choose|k: int| 0 <= k < all_scopes().len() && #[trigger] all_scopes()[k] == e.scope;
    assert(scope_used(entries, e.scope));
    lemma_scope_part_holds(entries, e.scope, on, row);
    lemma_part_shown(entries, all_scopes(), on, k, row);
    lemma_part_shown(entries, all_scopes(), on, k, e.scope.label_text());
    lemma_list_holds(entries, on);
    let parts = scope_parts(entries, all_scopes(), on);
    let text = list_text(entries, on);
    lemma_contains_trans(text, parts, row);
    lemma_contains_trans(text, parts, e.scope.label_text());
    lemma_row_tells(e, on);
    lemma_contains_trans(text, row, seen);
}

proof fn lemma_painted(on: bool, code: Seq<char>, s: Seq<char>)
    ensures
        contains(painted(on, code, s), s),
{
    crate::text::parts_stand_in_the_whole("\x1b["@ + code + "m"@, s, "\x1b[0m"@, s);
}

pub proof fn lemma_contains_trans(a: Seq<char>, b: Seq<char>, c: Seq<char>)
    requires
        contains(a, b),
        contains(b, c),
    ensures
        contains(a, c),
{
    let i = choose|i: int| crate::text::occurs_at(a, b, i);
    let front = a.take(i);
    let back = a.skip(i + b.len());
    assert(a =~= front + a.subrange(i, i + b.len()) + back);
    crate::text::parts_stand_in_the_whole(front, b, back, c);
}

/// A text that the menu shows as it is.
pub open spec fn is_plain_text(t: Seq<char>) -> bool {
    &&& t.len() > 0
    &&& !crate::text::is_space(t[0])
    &&& !crate::text::is_space(t.last())
    &&& t[0] != '@'
    &&& forall|i: int| 0 <= i < t.len() ==> #[trigger] t[i] != '&'
}

/// An entry tells what the menu shows and whose it is: a verb its own text, or else the default value of
/// its key, and the command that it runs; a handler the name of its class and the library behind it; and
/// where neither is a text, the name of the key.
pub proof fn entries_tell_what_the_menu_shows(
    scope: Scope,
    name: Seq<char>,
    w: ClassWorld,
    text: Seq<char>,
    class: Seq<char>,
)
    requires
        is_plain_text(text),
    ensures
        verb_entry(scope, name, w).len() > 0 ==> ({
            let key = scope.path_text() + "\\shell"@ + "\\"@ + name;
            let e = verb_entry(scope, name, w)[0];
            &&& (w.values)(key, "MUIVerb"@) == Some(text) ==> e.text == text
            &&& (w.values)(key, "MUIVerb"@) == Some(Seq::<char>::empty()) && (w.values)(key, ""@)
                == Some(text) ==> e.text == text
            &&& (w.values)(key, "MUIVerb"@) == Some(Seq::<char>::empty()) && (w.values)(key, ""@)
                is None ==> e.text == name
            &&& (w.values)(key + "\\"@ + "command"@, ""@) == Some(text) ==> e.detail == text
        }),
        handler_entry(scope, name, w).len() > 0 ==> ({
            let e = handler_entry(scope, name, w)[0];
            &&& (w.values)("CLSID"@ + "\\"@ + e.clsid, ""@) == Some(text) ==> e.text == text
            &&& (w.values)("CLSID"@ + "\\"@ + e.clsid, ""@) is None ==> e.text == name
            &&& (w.values)(
                "CLSID"@ + "\\"@ + e.clsid + "\\"@ + "InprocServer32"@,
                ""@,
            ) == Some(text) ==> e.detail == text
        }),
{
    menu_texts_lose_their_marks(text, name);
    menu_texts_lose_their_marks(seq![], name);
    lemma_no_marks(text);
}

proof fn lemma_no_marks(t: Seq<char>)
    requires
        forall|i: int| 0 <= i < t.len() ==> #[trigger] t[i] != '&',
    ensures
        t.filter(|c: char| c != '&') == t,
    decreases t.len(),
{
    reveal(Seq::filter);
    if t.len() > 0 {
        let front = t.drop_last();
        assert forall|i: int| 0 <= i < front.len() implies #[trigger] front[i] != '&' by {
            assert(front[i] == t[i]);
        }
        lemma_no_marks(front);
        assert(t[t.len() - 1] != '&');
        assert(front.push(t.last()) =~= t);
    }
}

} // verus!
