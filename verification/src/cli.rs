//! The command line: what its arguments ask for.

use vstd::prelude::*;
use vstd::slice::slice_subrange;

use crate::analyze::AnalyzeOptions;
use crate::apps::AppsOptions;
use crate::ctxmenu::{Action, CtxOptions};
use crate::number::{parse_usize, parsed_number};
use crate::settings::has_category;
use crate::targets::{category_named, Category};
use crate::text::{
    chars_of, has_prefix, no_texts, push_text, rows, split_char, split_on, starts_with, str_eq,
    string_of, text_opt, texts, trim, trimmed,
};
use crate::uninstall::UninstallOptions;

verus! {

/// What cleaning is asked for.
pub struct Options {
    pub dry_run: bool,
    pub yes: bool,
    pub verbose: bool,
    pub list: bool,
    pub recycle_bin: bool,
    pub only: Option<Vec<Category>>,
}

/// What cleaning is asked for, as mathematical data.
pub struct OptionsRow {
    pub dry_run: bool,
    pub yes: bool,
    pub verbose: bool,
    pub list: bool,
    pub recycle_bin: bool,
    pub only: Option<Seq<Category>>,
}

impl View for Options {
    type V = OptionsRow;

    open spec fn view(&self) -> OptionsRow {
        OptionsRow {
            dry_run: self.dry_run,
            yes: self.yes,
            verbose: self.verbose,
            list: self.list,
            recycle_bin: self.recycle_bin,
            only: match self.only {
                Some(v) => Some(v@),
                None => None,
            },
        }
    }
}

/// Nothing special is asked for.
pub open spec fn plain_options() -> OptionsRow {
    OptionsRow {
        dry_run: false,
        yes: false,
        verbose: false,
        list: false,
        recycle_bin: false,
        only: None,
    }
}

impl Default for Options {
    fn default() -> (r: Options)
        ensures
            r@ == plain_options(),
    {
        Options {
            dry_run: false,
            yes: false,
            verbose: false,
            list: false,
            recycle_bin: false,
            only: None,
        }
    }
}

/// A command with its options.
pub enum Cli {
    Menu,
    Clean(Options),
    Analyze(AnalyzeOptions),
    Apps(AppsOptions),
    Uninstall(UninstallOptions),
    Ctxmenu(CtxOptions),
}

/// A command with its options, as mathematical data.
pub enum CliRow {
    Menu,
    Clean(OptionsRow),
    Analyze { path: Option<Seq<char>>, json: bool, top: usize },
    Apps { json: bool, filter: Option<Seq<char>> },
    Uninstall { filter: Seq<char>, dry_run: bool, yes: bool, no_color: bool },
    Ctxmenu { action: Action, filter: Option<Seq<char>>, json: bool },
}

impl View for Cli {
    type V = CliRow;

    open spec fn view(&self) -> CliRow {
        match self {
            Cli::Menu => CliRow::Menu,
            Cli::Clean(o) => CliRow::Clean(o@),
            Cli::Analyze(o) => CliRow::Analyze {
                path: text_opt(o.path),
                json: o.json,
                top: o.top,
            },
            Cli::Apps(o) => CliRow::Apps { json: o.json, filter: text_opt(o.filter) },
            Cli::Uninstall(o) => CliRow::Uninstall {
                filter: o.filter@,
                dry_run: o.dry_run,
                yes: o.yes,
                no_color: o.no_color,
            },
            Cli::Ctxmenu(o) => CliRow::Ctxmenu {
                action: o.action,
                filter: text_opt(o.filter),
                json: o.json,
            },
        }
    }
}

/// What the arguments ask for.
pub enum Request {
    /// A command.
    Run(Cli),
    /// The help text.
    Help,
    /// The version.
    Version,
    /// Nothing sensible, and why.
    Bad(String),
}

/// What the arguments ask for, as mathematical data.
pub enum RequestRow {
    Run(CliRow),
    Help,
    Version,
    Bad(Seq<char>),
}

impl View for Request {
    type V = RequestRow;

    open spec fn view(&self) -> RequestRow {
        match self {
            Request::Run(c) => RequestRow::Run(c@),
            Request::Help => RequestRow::Help,
            Request::Version => RequestRow::Version,
            Request::Bad(s) => RequestRow::Bad(s@),
        }
    }
}

fn bad(front: &str, arg: &str) -> (r: Request)
    ensures
        r@ == RequestRow::Bad(front@ + arg@),
{
    let mut out = front.to_string();
    out.append(arg);
    Request::Bad(out)
}

fn starts_dash(arg: &str) -> (r: bool)
    ensures
        r == has_prefix(arg@, "-"@),
{
    starts_with(chars_of(arg).as_slice(), "-")
}

fn is_help(arg: &str) -> (r: bool)
    ensures
        r == (arg@ == "-h"@ || arg@ == "--help"@),
{
    str_eq(arg, "-h") || str_eq(arg, "--help")
}

/// The text behind a front that it begins with.
fn behind(arg: &str, front: &str) -> (r: String)
    requires
        has_prefix(arg@, front@),
    ensures
        r@ == arg@.skip(front@.len() as int),
{
    let a = chars_of(arg);
    let f = chars_of(front);
    let rest = slice_subrange(a.as_slice(), f.len(), a.len());
    assert(rest@ =~= arg@.skip(front@.len() as int));
    string_of(rest)
}

// ---------------------------------------------------------------------------
// clean
// ---------------------------------------------------------------------------

/// The categories that a list of words names, or why it does not. Blank words are passed over.
pub open spec fn categories_from(parts: Seq<Seq<char>>, sofar: Seq<Category>) -> Result<
    Seq<Category>,
    Seq<char>,
>
    decreases parts.len(),
{
    if parts.len() == 0 {
        if sofar.len() == 0 {
            Err("--only needs at least one category"@)
        } else {
            Ok(sofar)
        }
    } else {
        let word = trimmed(parts[0]);
        if word.len() == 0 {
            categories_from(parts.drop_first(), sofar)
        } else {
            match category_named(word) {
                None => Err(
                    "unknown category '"@ + word + "' (temp, system, browser, dev, apps)"@,
                ),
                Some(c) => categories_from(
                    parts.drop_first(),
                    if sofar.contains(c) {
                        sofar
                    } else {
                        sofar.push(c)
                    },
                ),
            }
        }
    }
}

pub open spec fn categories_result(r: Result<Vec<Category>, String>) -> Result<
    Seq<Category>,
    Seq<char>,
> {
    match r {
        Ok(v) => Ok(v@),
        Err(e) => Err(e@),
    }
}

/// The categories that a value such as `dev,browser` names.
pub fn parse_categories(value: &str) -> (r: Result<Vec<Category>, String>)
    ensures
        categories_result(r) == categories_from(split_on(value@, ','), seq![]),
{
    let parts = split_char(chars_of(value).as_slice(), ',');
    let ghost all = rows(parts@);
    let mut cats: Vec<Category> = Vec::new();
    let mut i: usize = 0;
    assert(all.skip(0) =~= all);
    assert(cats@ =~= Seq::<Category>::empty());
    while i < parts.len()
        invariant
            i <= parts@.len(),
            all == rows(parts@),
            all == split_on(value@, ','),
            categories_from(all, seq![]) == categories_from(all.skip(i as int), cats@),
        decreases parts@.len() - i,
    {
        let ghost rest = all.skip(i as int);
        assert(rest[0] == parts@[i as int]@);
        assert(rest.drop_first() =~= all.skip(i + 1));
        let word = trim(parts[i].as_slice());
        if word.len() > 0 {
            let text = string_of(word);
            match Category::parse(text.as_str()) {
                None => {
                    let mut e = "unknown category '".to_string();
                    e.append(text.as_str());
                    e.append("' (temp, system, browser, dev, apps)");
                    return Err(e);
                },
                Some(c) => {
                    if !has_category(&cats, c) {
                        cats.push(c);
                    }
                },
            }
        }
        i = i + 1;
    }
    assert(all.skip(i as int).len() == 0);
    if cats.len() == 0 {
        return Err("--only needs at least one category".to_string());
    }
    Ok(cats)
}

/// What the arguments of `clean` ask for, with what those in front have asked for.
pub open spec fn clean_from(args: Seq<Seq<char>>, o: OptionsRow) -> RequestRow
    decreases args.len(),
{
    if args.len() == 0 {
        RequestRow::Run(CliRow::Clean(o))
    } else {
        let a = args[0];
        let rest = args.drop_first();
        if a == "clean"@ {
            clean_from(rest, o)
        } else if a == "-n"@ || a == "--dry-run"@ {
            clean_from(rest, OptionsRow { dry_run: true, ..o })
        } else if a == "-y"@ || a == "--yes"@ {
            clean_from(rest, OptionsRow { yes: true, ..o })
        } else if a == "-v"@ || a == "--verbose"@ {
            clean_from(rest, OptionsRow { verbose: true, ..o })
        } else if a == "--list"@ {
            clean_from(rest, OptionsRow { list: true, ..o })
        } else if a == "--recycle-bin"@ {
            clean_from(rest, OptionsRow { recycle_bin: true, ..o })
        } else if a == "-V"@ || a == "--version"@ {
            RequestRow::Version
        } else if a == "-h"@ || a == "--help"@ {
            RequestRow::Help
        } else if a == "--only"@ {
            if rest.len() == 0 {
                RequestRow::Bad("--only needs a value, e.g. --only dev,browser"@)
            } else {
                match categories_from(split_on(rest[0], ','), seq![]) {
                    Ok(c) => clean_from(rest.drop_first(), OptionsRow { only: Some(c), ..o }),
                    Err(e) => RequestRow::Bad(e),
                }
            }
        } else if has_prefix(a, "--only="@) {
            match categories_from(split_on(a.skip("--only="@.len() as int), ','), seq![]) {
                Ok(c) => clean_from(rest, OptionsRow { only: Some(c), ..o }),
                Err(e) => RequestRow::Bad(e),
            }
        } else {
            RequestRow::Bad("unknown argument: "@ + a)
        }
    }
}

/// What the arguments of `clean` ask for.
pub fn parse_clean_args(args: &Vec<String>) -> (r: Request)
    ensures
        r@ == clean_from(texts(args@), plain_options()),
{
    let ghost all = texts(args@);
    let mut opts = Options::default();
    let mut i: usize = 0;
    assert(all.skip(0) =~= all);
    while i < args.len()
        invariant
            i <= args@.len(),
            all == texts(args@),
            clean_from(all, plain_options()) == clean_from(all.skip(i as int), opts@),
        decreases args@.len() - i,
    {
        let ghost rest = all.skip(i as int);
        assert(rest[0] == args@[i as int]@);
        assert(rest.drop_first() =~= all.skip(i + 1));
        let a = args[i].as_str();
        if str_eq(a, "clean") {
        } else if str_eq(a, "-n") || str_eq(a, "--dry-run") {
            opts.dry_run = true;
        } else if str_eq(a, "-y") || str_eq(a, "--yes") {
            opts.yes = true;
        } else if str_eq(a, "-v") || str_eq(a, "--verbose") {
            opts.verbose = true;
        } else if str_eq(a, "--list") {
            opts.list = true;
        } else if str_eq(a, "--recycle-bin") {
            opts.recycle_bin = true;
        } else if str_eq(a, "-V") || str_eq(a, "--version") {
            return Request::Version;
        } else if is_help(a) {
            return Request::Help;
        } else if str_eq(a, "--only") {
            if i + 1 >= args.len() {
                assert(rest.drop_first().len() == 0);
                return Request::Bad("--only needs a value, e.g. --only dev,browser".to_string());
            }
            assert(rest.drop_first()[0] == args@[i + 1]@);
            assert(rest.drop_first().drop_first() =~= all.skip(i + 2));
            match parse_categories(args[i + 1].as_str()) {
                Ok(c) => {
                    opts.only = Some(c);
                },
                Err(e) => {
                    return Request::Bad(e);
                },
            }
            i = i + 1;
        } else if starts_with(chars_of(a).as_slice(), "--only=") {
            let value = behind(a, "--only=");
            match parse_categories(value.as_str()) {
                Ok(c) => {
                    opts.only = Some(c);
                },
                Err(e) => {
                    return Request::Bad(e);
                },
            }
        } else {
            return bad("unknown argument: ", a);
        }
        i = i + 1;
    }
    assert(all.skip(i as int).len() == 0);
    Request::Run(Cli::Clean(opts))
}

// ---------------------------------------------------------------------------
// analyze
// ---------------------------------------------------------------------------

/// The number that a value of `--top` writes.
pub open spec fn top_of(value: Seq<char>) -> Option<usize> {
    match parsed_number(value, usize::MAX as nat) {
        Some(n) => Some(n as usize),
        None => None,
    }
}

/// What the arguments of `analyze` ask for, with what those in front have asked for.
pub open spec fn analyze_from(
    args: Seq<Seq<char>>,
    path: Option<Seq<char>>,
    json: bool,
    top: usize,
) -> RequestRow
    decreases args.len(),
{
    if args.len() == 0 {
        RequestRow::Run(CliRow::Analyze { path, json, top })
    } else {
        let a = args[0];
        let rest = args.drop_first();
        if a == "--json"@ {
            analyze_from(rest, path, true, top)
        } else if a == "--top"@ {
            if rest.len() == 0 {
                RequestRow::Bad("--top needs a number"@)
            } else {
                match top_of(rest[0]) {
                    Some(n) => analyze_from(rest.drop_first(), path, json, n),
                    None => RequestRow::Bad("invalid --top value: "@ + rest[0]),
                }
            }
        } else if has_prefix(a, "--top="@) {
            match top_of(a.skip("--top="@.len() as int)) {
                Some(n) => analyze_from(rest, path, json, n),
                None => RequestRow::Bad(
                    "invalid --top value: "@ + a.skip("--top="@.len() as int),
                ),
            }
        } else if a == "-h"@ || a == "--help"@ {
            RequestRow::Help
        } else if has_prefix(a, "-"@) {
            RequestRow::Bad("unknown argument: "@ + a)
        } else if path is Some {
            RequestRow::Bad("unexpected extra path: "@ + a)
        } else {
            analyze_from(rest, Some(a), json, top)
        }
    }
}

fn read_top(value: &str) -> (r: Option<usize>)
    ensures
        r == top_of(value@),
{
    parse_usize(chars_of(value).as_slice())
}

/// What the arguments of `analyze` ask for.
pub fn parse_analyze_args(args: &Vec<String>) -> (r: Request)
    ensures
        r@ == analyze_from(texts(args@), None, false, 40),
{
    let ghost all = texts(args@);
    let mut opts = AnalyzeOptions::default();
    let mut i: usize = 0;
    assert(all.skip(0) =~= all);
    while i < args.len()
        invariant
            i <= args@.len(),
            all == texts(args@),
            analyze_from(all, None, false, 40) == analyze_from(
                all.skip(i as int),
                text_opt(opts.path),
                opts.json,
                opts.top,
            ),
        decreases args@.len() - i,
    {
        let ghost rest = all.skip(i as int);
        assert(rest[0] == args@[i as int]@);
        assert(rest.drop_first() =~= all.skip(i + 1));
        let a = args[i].as_str();
        if str_eq(a, "--json") {
            opts.json = true;
        } else if str_eq(a, "--top") {
            if i + 1 >= args.len() {
                assert(rest.drop_first().len() == 0);
                return Request::Bad("--top needs a number".to_string());
            }
            assert(rest.drop_first()[0] == args@[i + 1]@);
            assert(rest.drop_first().drop_first() =~= all.skip(i + 2));
            match read_top(args[i + 1].as_str()) {
                Some(n) => {
                    opts.top = n;
                },
                None => {
                    return bad("invalid --top value: ", args[i + 1].as_str());
                },
            }
            i = i + 1;
        } else if starts_with(chars_of(a).as_slice(), "--top=") {
            let value = behind(a, "--top=");
            match read_top(value.as_str()) {
                Some(n) => {
                    opts.top = n;
                },
                None => {
                    return bad("invalid --top value: ", value.as_str());
                },
            }
        } else if is_help(a) {
            return Request::Help;
        } else if starts_dash(a) {
            return bad("unknown argument: ", a);
        } else if opts.path.is_some() {
            return bad("unexpected extra path: ", a);
        } else {
            opts.path = Some(a.to_string());
        }
        i = i + 1;
    }
    assert(all.skip(i as int).len() == 0);
    Request::Run(Cli::Analyze(opts))
}

// ---------------------------------------------------------------------------
// apps
// ---------------------------------------------------------------------------

/// What the arguments of `apps` ask for, with what those in front have asked for.
pub open spec fn apps_from(args: Seq<Seq<char>>, json: bool, filter: Option<Seq<char>>) -> RequestRow
    decreases args.len(),
{
    if args.len() == 0 {
        RequestRow::Run(CliRow::Apps { json, filter })
    } else {
        let a = args[0];
        let rest = args.drop_first();
        if a == "--json"@ {
            apps_from(rest, true, filter)
        } else if a == "-h"@ || a == "--help"@ {
            RequestRow::Help
        } else if has_prefix(a, "-"@) {
            RequestRow::Bad("unknown argument: "@ + a)
        } else if filter is Some {
            RequestRow::Bad("unexpected extra filter: "@ + a)
        } else {
            apps_from(rest, json, Some(a))
        }
    }
}

/// What the arguments of `apps` ask for.
pub fn parse_apps_args(args: &Vec<String>) -> (r: Request)
    ensures
        r@ == apps_from(texts(args@), false, None),
{
    let ghost all = texts(args@);
    let mut opts = AppsOptions::default();
    let mut i: usize = 0;
    assert(all.skip(0) =~= all);
    while i < args.len()
        invariant
            i <= args@.len(),
            all == texts(args@),
            apps_from(all, false, None) == apps_from(
                all.skip(i as int),
                opts.json,
                text_opt(opts.filter),
            ),
        decreases args@.len() - i,
    {
        let ghost rest = all.skip(i as int);
        assert(rest[0] == args@[i as int]@);
        assert(rest.drop_first() =~= all.skip(i + 1));
        let a = args[i].as_str();
        if str_eq(a, "--json") {
            opts.json = true;
        } else if is_help(a) {
            return Request::Help;
        } else if starts_dash(a) {
            return bad("unknown argument: ", a);
        } else if opts.filter.is_some() {
            return bad("unexpected extra filter: ", a);
        } else {
            opts.filter = Some(a.to_string());
        }
        i = i + 1;
    }
    assert(all.skip(i as int).len() == 0);
    Request::Run(Cli::Apps(opts))
}

// ---------------------------------------------------------------------------
// uninstall
// ---------------------------------------------------------------------------

/// What the arguments of `uninstall` ask for, with what those in front have asked for.
pub open spec fn uninstall_from(
    args: Seq<Seq<char>>,
    filter: Option<Seq<char>>,
    dry_run: bool,
    yes: bool,
    no_color: bool,
) -> RequestRow
    decreases args.len(),
{
    if args.len() == 0 {
        match filter {
            Some(f) => RequestRow::Run(
                CliRow::Uninstall { filter: f, dry_run, yes, no_color },
            ),
            None => RequestRow::Bad(
                "uninstall needs an app name, e.g. `dpan uninstall 7-zip`"@,
            ),
        }
    } else {
        let a = args[0];
        let rest = args.drop_first();
        if a == "-n"@ || a == "--dry-run"@ {
            uninstall_from(rest, filter, true, yes, no_color)
        } else if a == "-y"@ || a == "--yes"@ {
            uninstall_from(rest, filter, dry_run, true, no_color)
        } else if a == "-h"@ || a == "--help"@ {
            RequestRow::Help
        } else if has_prefix(a, "-"@) {
            RequestRow::Bad("unknown argument: "@ + a)
        } else if filter is Some {
            RequestRow::Bad("unexpected extra argument: "@ + a)
        } else {
            uninstall_from(rest, Some(a), dry_run, yes, no_color)
        }
    }
}

/// What the arguments of `uninstall` ask for.
pub fn parse_uninstall_args(args: &Vec<String>, no_color: bool) -> (r: Request)
    ensures
        r@ == uninstall_from(texts(args@), None, false, false, no_color),
{
    let ghost all = texts(args@);
    let mut filter: Option<String> = None;
    let mut dry_run = false;
    let mut yes = false;
    let mut i: usize = 0;
    assert(all.skip(0) =~= all);
    while i < args.len()
        invariant
            i <= args@.len(),
            all == texts(args@),
            uninstall_from(all, None, false, false, no_color) == uninstall_from(
                all.skip(i as int),
                text_opt(filter),
                dry_run,
                yes,
                no_color,
            ),
        decreases args@.len() - i,
    {
        let ghost rest = all.skip(i as int);
        assert(rest[0] == args@[i as int]@);
        assert(rest.drop_first() =~= all.skip(i + 1));
        let a = args[i].as_str();
        if str_eq(a, "-n") || str_eq(a, "--dry-run") {
            dry_run = true;
        } else if str_eq(a, "-y") || str_eq(a, "--yes") {
            yes = true;
        } else if is_help(a) {
            return Request::Help;
        } else if starts_dash(a) {
            return bad("unknown argument: ", a);
        } else if filter.is_some() {
            return bad("unexpected extra argument: ", a);
        } else {
            filter = Some(a.to_string());
        }
        i = i + 1;
    }
    assert(all.skip(i as int).len() == 0);
    match filter {
        Some(f) => Request::Run(
            Cli::Uninstall(UninstallOptions { filter: f, dry_run, yes, no_color }),
        ),
        None => Request::Bad(
            "uninstall needs an app name, e.g. `dpan uninstall 7-zip`".to_string(),
        ),
    }
}

// ---------------------------------------------------------------------------
// ctxmenu
// ---------------------------------------------------------------------------

/// What the arguments of `ctxmenu` behind its action ask for, with what those in front have asked
/// for.
pub open spec fn ctxmenu_from(
    args: Seq<Seq<char>>,
    action: Action,
    filter: Option<Seq<char>>,
    json: bool,
) -> RequestRow
    decreases args.len(),
{
    if args.len() == 0 {
        if action != Action::List && filter is None {
            RequestRow::Bad(
                "ctxmenu on/off needs an entry name, e.g. `dpan ctxmenu off 百度`"@,
            )
        } else {
            RequestRow::Run(CliRow::Ctxmenu { action, filter, json })
        }
    } else {
        let a = args[0];
        let rest = args.drop_first();
        if a == "--json"@ {
            ctxmenu_from(rest, action, filter, true)
        } else if a == "-h"@ || a == "--help"@ {
            RequestRow::Help
        } else if has_prefix(a, "-"@) {
            RequestRow::Bad("unknown argument: "@ + a)
        } else if filter is Some {
            RequestRow::Bad("unexpected extra argument: "@ + a)
        } else {
            ctxmenu_from(rest, action, Some(a), json)
        }
    }
}

/// What the arguments of `ctxmenu` ask for: the first may be the action.
pub open spec fn ctxmenu_asked(args: Seq<Seq<char>>) -> RequestRow {
    if args.len() > 0 && args[0] == "off"@ {
        ctxmenu_from(args.skip(1), Action::Off, None, false)
    } else if args.len() > 0 && args[0] == "on"@ {
        ctxmenu_from(args.skip(1), Action::On, None, false)
    } else {
        ctxmenu_from(args.skip(0), Action::List, None, false)
    }
}

/// What the arguments of `ctxmenu` ask for.
pub fn parse_ctxmenu_args(args: &Vec<String>) -> (r: Request)
    ensures
        r@ == ctxmenu_asked(texts(args@)),
{
    let ghost all = texts(args@);
    let mut action = Action::List;
    let mut i: usize = 0;
    if args.len() > 0 {
        assert(all[0] == args@[0]@);
        if str_eq(args[0].as_str(), "off") {
            action = Action::Off;
            i = 1;
        } else if str_eq(args[0].as_str(), "on") {
            action = Action::On;
            i = 1;
        }
    }
    let mut filter: Option<String> = None;
    let mut json = false;
    while i < args.len()
        invariant
            i <= args@.len(),
            all == texts(args@),
            ctxmenu_asked(all) == ctxmenu_from(
                all.skip(i as int),
                action,
                text_opt(filter),
                json,
            ),
        decreases args@.len() - i,
    {
        let ghost rest = all.skip(i as int);
        assert(rest[0] == args@[i as int]@);
        assert(rest.drop_first() =~= all.skip(i + 1));
        let a = args[i].as_str();
        if str_eq(a, "--json") {
            json = true;
        } else if is_help(a) {
            return Request::Help;
        } else if starts_dash(a) {
            return bad("unknown argument: ", a);
        } else if filter.is_some() {
            return bad("unexpected extra argument: ", a);
        } else {
            filter = Some(a.to_string());
        }
        i = i + 1;
    }
    assert(all.skip(i as int).len() == 0);
    if !matches!(action, Action::List) && filter.is_none() {
        return Request::Bad(
            "ctxmenu on/off needs an entry name, e.g. `dpan ctxmenu off 百度`".to_string(),
        );
    }
    Request::Run(Cli::Ctxmenu(CtxOptions { action, filter, json }))
}

// ---------------------------------------------------------------------------
// All commands
// ---------------------------------------------------------------------------

/// The arguments without those that switch colours off.
pub open spec fn without_no_color(args: Seq<Seq<char>>) -> Seq<Seq<char>>
    decreases args.len(),
{
    if args.len() == 0 {
        seq![]
    } else if args.last() == "--no-color"@ {
        without_no_color(args.drop_last())
    } else {
        without_no_color(args.drop_last()).push(args.last())
    }
}

/// What the arguments ask for. Without a command it is the menu; what names no other command is taken
/// for arguments of `clean`.
pub open spec fn asked(args: Seq<Seq<char>>) -> RequestRow {
    let a = without_no_color(args);
    let no_color = args.contains("--no-color"@);
    if a.len() == 0 {
        RequestRow::Run(CliRow::Menu)
    } else if a[0] == "analyze"@ || a[0] == "analyse"@ {
        analyze_from(a.skip(1), None, false, 40)
    } else if a[0] == "apps"@ {
        apps_from(a.skip(1), false, None)
    } else if a[0] == "uninstall"@ {
        uninstall_from(a.skip(1), None, false, false, no_color)
    } else if a[0] == "ctxmenu"@ {
        ctxmenu_asked(a.skip(1))
    } else {
        clean_from(a, plain_options())
    }
}

/// The list from its second string on.
fn tail(list: &Vec<String>) -> (r: Vec<String>)
    requires
        list@.len() > 0,
    ensures
        texts(r@) == texts(list@).skip(1),
{
    let ghost all = texts(list@);
    let mut out = no_texts();
    assert(texts(out@) =~= all.subrange(1, 1));
    for i in 1..list.len()
        invariant
            list@.len() > 0,
            all == texts(list@),
            texts(out@) == all.subrange(1, i as int),
    {
        push_text(&mut out, list[i].clone());
        assert(texts(out@) =~= all.subrange(1, i + 1));
    }
    assert(all.subrange(1, all.len() as int) =~= all.skip(1));
    out
}

/// What the arguments ask for, and whether they switch colours off.
pub fn parse_args(args: &Vec<String>) -> (r: (bool, Request))
    ensures
        r.0 == texts(args@).contains("--no-color"@),
        r.1@ == asked(texts(args@)),
{
    let ghost all = texts(args@);
    let no_color = crate::text::has_text(args, "--no-color");
    let mut rest = no_texts();
    assert(all.take(0) =~= Seq::<Seq<char>>::empty());
    for i in 0..args.len()
        invariant
            all == texts(args@),
            texts(rest@) == without_no_color(all.take(i as int)),
    {
        assert(all.take(i + 1).drop_last() =~= all.take(i as int));
        assert(all.take(i + 1).last() == args@[i as int]@);
        if !str_eq(args[i].as_str(), "--no-color") {
            push_text(&mut rest, args[i].clone());
        }
    }
    assert(all.take(all.len() as int) =~= all);
    if rest.len() == 0 {
        return (no_color, Request::Run(Cli::Menu));
    }
    assert(texts(rest@)[0] == rest@[0]@);
    let first = rest[0].as_str();
    let request = if str_eq(first, "analyze") || str_eq(first, "analyse") {
        parse_analyze_args(&tail(&rest))
    } else if str_eq(first, "apps") {
        parse_apps_args(&tail(&rest))
    } else if str_eq(first, "uninstall") {
        parse_uninstall_args(&tail(&rest), no_color)
    } else if str_eq(first, "ctxmenu") {
        parse_ctxmenu_args(&tail(&rest))
    } else {
        parse_clean_args(&rest)
    };
    (no_color, request)
}

// ---------------------------------------------------------------------------
// Help
// ---------------------------------------------------------------------------

/// What the help says behind the version.
pub const HELP: &'static str = " — lightweight Windows cache cleaner

USAGE:
    dpan                         Open the interactive menu (recommended)
    dpan clean [OPTIONS]
    dpan analyze [PATH] [OPTIONS]
    dpan apps [FILTER] [OPTIONS]
    dpan uninstall <FILTER> [OPTIONS]
    dpan ctxmenu [off|on <NAME>] [OPTIONS]

CLEAN OPTIONS:
    -n, --dry-run        Preview what would be removed, delete nothing
    -y, --yes            Skip the confirmation prompt
        --only <cats>    Limit categories: temp,system,browser,dev,apps
        --list           List resolved targets without scanning sizes
        --recycle-bin    Also empty the Recycle Bin (Windows only)
    -v, --verbose        Show per-entry decisions (skips, failures)
    When started without arguments, Clean opens a category picker first.

ANALYZE OPTIONS (read-only disk usage explorer):
    [PATH]               Directory to analyze (default: home directory)
        --json           Print sizes as JSON and exit (for scripting)
        --top <n>        Entries shown per directory (default: 40)
    Without arguments, Analyze offers common folders, drives, and custom paths.

APPS OPTIONS (interactive app list, biggest first):
    [FILTER]             Only show apps whose name contains FILTER
        --json           Print the inventory as JSON (adds publisher,
                         location, uninstall string)
    Interactive keys: j/k move, Space multi-select (with live hint),
    Enter uninstalls marked apps (or the highlighted one), g/G jump, q quit;
    sources: registry, Steam libraries (ACF manifests), portable dirs.

UNINSTALL OPTIONS (runs the vendor uninstaller, then sweeps leftovers):
    <FILTER>             App to uninstall (must match exactly one)
    -n, --dry-run        Show what would run and what would be deleted
    -y, --yes            Skip both confirmation prompts

CTXMENU OPTIONS (right-click menu manager, no admin needed):
    dpan ctxmenu                 List all context-menu entries
    dpan ctxmenu off <name>      Hide an entry (reversible, HKCU only)
    dpan ctxmenu on <name>       Restore a hidden entry
        --json                   List as JSON
    Without arguments, Context Menu opens a keyboard-driven on/off browser.

INTERACTIVE SETTINGS:
    The Settings screen remembers cleaning areas, Recycle Bin, confirmation,
    and color preferences for future argument-free runs.

COMMON OPTIONS:
    -h, --help           Show this help
    -V, --version        Show version
        --no-color       Disable ANSI color output

FILES:
    settings        %APPDATA%\\dustpan\\settings.conf
    whitelist       %APPDATA%\\dustpan\\whitelist.txt       (one path/glob per line)
    portable dirs   %APPDATA%\\dustpan\\portable_dirs.txt   (extra apps scan roots)
    audit log       %LOCALAPPDATA%\\dustpan\\operations.log
";

/// The help text.
pub fn help_text(version: &str) -> (r: String)
    ensures
        r@ == "dpan "@ + version@ + HELP@,
{
    let mut out = "dpan ".to_string();
    out.append(version);
    out.append(HELP);
    out
}

/// The version line.
pub fn version_text(version: &str) -> (r: String)
    ensures
        r@ == "dpan "@ + version@ + "\n"@,
{
    let mut out = "dpan ".to_string();
    out.append(version);
    out.append("\n");
    out
}

// ---------------------------------------------------------------------------
// Laws
// ---------------------------------------------------------------------------

/// Where colours are switched off makes no difference: everything else is asked for all the same.
pub proof fn no_color_may_stand_anywhere(args: Seq<Seq<char>>, i: int)
    requires
        0 <= i <= args.len(),
    ensures
        without_no_color(args.insert(i, "--no-color"@)) == without_no_color(args),
    decreases args.len(),
{
    let t = args.insert(i, "--no-color"@);
    if i == args.len() {
        assert(t.drop_last() =~= args);
    } else {
        no_color_may_stand_anywhere(args.drop_last(), i);
        assert(t.drop_last() =~= args.drop_last().insert(i, "--no-color"@));
        assert(t.last() == args.last());
    }
}

/// Whatever categories are asked for, at least one is, and none twice.
pub proof fn asked_categories_are_distinct(parts: Seq<Seq<char>>, sofar: Seq<Category>)
    requires
        sofar.no_duplicates(),
    ensures
        categories_from(parts, sofar) matches Ok(c) ==> c.len() > 0 && c.no_duplicates(),
    decreases parts.len(),
{
    if parts.len() > 0 {
        let word = trimmed(parts[0]);
        if word.len() == 0 {
            asked_categories_are_distinct(parts.drop_first(), sofar);
        } else if let Some(c) = category_named(word) {
            let next = if sofar.contains(c) {
                sofar
            } else {
                sofar.push(c)
            };
            assert(next.no_duplicates()) by {
                if !sofar.contains(c) {
                    assert forall|i: int, j: int|
                        0 <= i < next.len() && 0 <= j < next.len() && i != j implies next[i]
                        != next[j] by {
                        if i == sofar.len() {
                            assert(sofar.contains(sofar[j]));
                        } else if j == sofar.len() {
                            assert(sofar.contains(sofar[i]));
                        }
                    }
                }
            }
            asked_categories_are_distinct(parts.drop_first(), next);
        }
    }
}

/// A switch of `clean`, or the name of the command.
pub open spec fn is_clean_switch(a: Seq<char>) -> bool {
    ||| a == "clean"@
    ||| a == "-n"@
    ||| a == "--dry-run"@
    ||| a == "-y"@
    ||| a == "--yes"@
    ||| a == "-v"@
    ||| a == "--verbose"@
    ||| a == "--list"@
    ||| a == "--recycle-bin"@
}

proof fn lemma_switches()
    ensures
        "clean"@.len() == 5,
        "-n"@.len() == 2 && "-n"@[1] == 'n',
        "--dry-run"@.len() == 9 && "--dry-run"@[2] == 'd',
        "-y"@.len() == 2 && "-y"@[1] == 'y',
        "--yes"@.len() == 5 && "--yes"@[0] == '-',
        "-v"@.len() == 2 && "-v"@[1] == 'v',
        "--verbose"@.len() == 9 && "--verbose"@[2] == 'v',
        "--list"@.len() == 6,
        "--recycle-bin"@.len() == 13,
        "clean"@[0] == 'c',
{
    reveal_strlit("clean");
    reveal_strlit("-n");
    reveal_strlit("--dry-run");
    reveal_strlit("-y");
    reveal_strlit("--yes");
    reveal_strlit("-v");
    reveal_strlit("--verbose");
    reveal_strlit("--list");
    reveal_strlit("--recycle-bin");
}

proof fn lemma_contains_front(args: Seq<Seq<char>>, x: Seq<char>)
    requires
        args.len() > 0,
    ensures
        args.contains(x) == (args[0] == x || args.drop_first().contains(x)),
{
    let rest = args.drop_first();
    if args.contains(x) {
        let i = choose|i: int| 0 <= i < args.len() && args[i] == x;
        if i > 0 {
            assert(rest[i - 1] == x);
        }
    }
    if rest.contains(x) {
        let i = choose|i: int| 0 <= i < rest.len() && rest[i] == x;
        assert(args[i + 1] == x);
    }
}

/// Switches of `clean` may stand in any order and as often as one likes: each asks for what it names, in
/// its short form as in its long one, and for nothing else.
pub proof fn switches_ask_for_what_they_name(args: Seq<Seq<char>>, o: OptionsRow)
    requires
        forall|i: int| 0 <= i < args.len() ==> is_clean_switch(#[trigger] args[i]),
    ensures
        clean_from(args, o) == RequestRow::Run(
            CliRow::Clean(
                OptionsRow {
                    dry_run: o.dry_run || args.contains("-n"@) || args.contains("--dry-run"@),
                    yes: o.yes || args.contains("-y"@) || args.contains("--yes"@),
                    verbose: o.verbose || args.contains("-v"@) || args.contains("--verbose"@),
                    list: o.list || args.contains("--list"@),
                    recycle_bin: o.recycle_bin || args.contains("--recycle-bin"@),
                    only: o.only,
                },
            ),
        ),
    decreases args.len(),
{
    lemma_switches();
    if args.len() > 0 {
        let a = args[0];
        let rest = args.drop_first();
        assert(is_clean_switch(args[0]));
        assert forall|i: int| 0 <= i < rest.len() implies is_clean_switch(#[trigger] rest[i]) by {
            assert(rest[i] == args[i + 1]);
        }
        lemma_contains_front(args, "-n"@);
        lemma_contains_front(args, "--dry-run"@);
        lemma_contains_front(args, "-y"@);
        lemma_contains_front(args, "--yes"@);
        lemma_contains_front(args, "-v"@);
        lemma_contains_front(args, "--verbose"@);
        lemma_contains_front(args, "--list"@);
        lemma_contains_front(args, "--recycle-bin"@);
        if a == "clean"@ {
            switches_ask_for_what_they_name(rest, o);
        } else if a == "-n"@ || a == "--dry-run"@ {
            switches_ask_for_what_they_name(rest, OptionsRow { dry_run: true, ..o });
        } else if a == "-y"@ || a == "--yes"@ {
            switches_ask_for_what_they_name(rest, OptionsRow { yes: true, ..o });
        } else if a == "-v"@ || a == "--verbose"@ {
            switches_ask_for_what_they_name(rest, OptionsRow { verbose: true, ..o });
        } else if a == "--list"@ {
            switches_ask_for_what_they_name(rest, OptionsRow { list: true, ..o });
        } else {
            switches_ask_for_what_they_name(rest, OptionsRow { recycle_bin: true, ..o });
        }
    }
}

/// `--only` asks for exactly the categories whose words it lists, whatever blanks stand round them; a word
/// that names none is refused.
pub proof fn only_asks_for_the_named_categories(
    parts: Seq<Seq<char>>,
    named: Seq<Category>,
    sofar: Seq<Category>,
    c: Category,
)
    requires
        parts.len() == named.len(),
        parts.len() + sofar.len() > 0,
        forall|i: int|
            0 <= i < parts.len() ==> trimmed(#[trigger] parts[i]).len() > 0 && category_named(
                trimmed(parts[i]),
            ) == Some(named[i]),
    ensures
        categories_from(parts, sofar) is Ok,
        categories_from(parts, sofar)->Ok_0.contains(c) <==> sofar.contains(c) || named.contains(c),
    decreases parts.len(),
{
    if parts.len() > 0 {
        let rest = parts.drop_first();
        let more = named.drop_first();
        assert(trimmed(parts[0]).len() > 0);
        assert forall|i: int| 0 <= i < rest.len() implies trimmed(#[trigger] rest[i]).len() > 0
            && category_named(trimmed(rest[i])) == Some(more[i]) by {
            assert(rest[i] == parts[i + 1]);
            assert(more[i] == named[i + 1]);
        }
        let next = if sofar.contains(named[0]) {
            sofar
        } else {
            sofar.push(named[0])
        };
        if !sofar.contains(named[0]) {
            assert(next[sofar.len() as int] == named[0]);
        }
        assert(next.len() > 0) by {
            if sofar.contains(named[0]) {
                let i = choose|i: int| 0 <= i < sofar.len() && sofar[i] == named[0];
            }
        }
        only_asks_for_the_named_categories(rest, more, next, c);
        assert(next.contains(c) <==> sofar.contains(c) || named[0] == c) by {
            if sofar.contains(c) {
                let i = choose|i: int| 0 <= i < sofar.len() && sofar[i] == c;
                assert(next[i] == c);
            }
            if next.contains(c) {
                let i = choose|i: int| 0 <= i < next.len() && next[i] == c;
                if i < sofar.len() {
                    assert(sofar[i] == c);
                }
            }
            if named[0] == c && sofar.contains(named[0]) {
                assert(next.contains(c));
            }
        }
        assert(named.contains(c) <==> named[0] == c || more.contains(c)) by {
            if named.contains(c) {
                let i = choose|i: int| 0 <= i < named.len() && named[i] == c;
                if i > 0 {
                    assert(more[i - 1] == c);
                }
            }
            if more.contains(c) {
                let i = choose|i: int| 0 <= i < more.len() && more[i] == c;
                assert(named[i + 1] == c);
            }
        }
    } else {
        assert(!named.contains(c));
    }
}

/// A switch of `uninstall`.
pub open spec fn is_uninstall_switch(a: Seq<char>) -> bool {
    a == "-n"@ || a == "--dry-run"@ || a == "-y"@ || a == "--yes"@
}

/// `uninstall` takes one name, before, between or behind its switches; each switch asks for what it names.
pub proof fn uninstall_takes_a_name_and_switches(
    args: Seq<Seq<char>>,
    k: int,
    filter: Option<Seq<char>>,
    dry_run: bool,
    yes: bool,
    no_color: bool,
)
    requires
        filter is None ==> 0 <= k < args.len() && !has_prefix(args[k], "-"@),
        filter is Some ==> k == -1,
        forall|i: int| 0 <= i < args.len() && i != k ==> is_uninstall_switch(#[trigger] args[i]),
    ensures
        uninstall_from(args, filter, dry_run, yes, no_color) == RequestRow::Run(
            CliRow::Uninstall {
                filter: match filter {
                    Some(f) => f,
                    None => args[k],
                },
                dry_run: dry_run || args.contains("-n"@) || args.contains("--dry-run"@),
                yes: yes || args.contains("-y"@) || args.contains("--yes"@),
                no_color,
            },
        ),
    decreases args.len(),
{
    lemma_switches();
    reveal_strlit("-");
    if args.len() > 0 {
        let a = args[0];
        let rest = args.drop_first();
        lemma_contains_front(args, "-n"@);
        lemma_contains_front(args, "--dry-run"@);
        lemma_contains_front(args, "-y"@);
        lemma_contains_front(args, "--yes"@);
        assert forall|i: int| 0 <= i < rest.len() && i != (if k >= 0 {
            k - 1
        } else {
            -1
        }) implies is_uninstall_switch(#[trigger] rest[i]) by {
            assert(rest[i] == args[i + 1]);
        }
        if k == 0 {
            lemma_no_switch(a);
            uninstall_takes_a_name_and_switches(rest, -1, Some(a), dry_run, yes, no_color);
        } else {
            assert(is_uninstall_switch(args[0]));
            if k > 0 {
                assert(rest[k - 1] == args[k]);
            }
            let d = dry_run || a == "-n"@ || a == "--dry-run"@;
            let y = yes || a == "-y"@ || a == "--yes"@;
            uninstall_takes_a_name_and_switches(
                rest,
                if k > 0 {
                    k - 1
                } else {
                    -1
                },
                filter,
                d,
                y,
                no_color,
            );
        }
    }
}

proof fn lemma_no_switch(a: Seq<char>)
    requires
        !has_prefix(a, "-"@),
    ensures
        a != "-n"@ && a != "--dry-run"@ && a != "-y"@ && a != "--yes"@ && a != "-h"@ && a
            != "--help"@ && a != "--json"@ && a != "--top"@ && !has_prefix(a, "--top="@),
{
    reveal_strlit("-");
    reveal_strlit("-n");
    reveal_strlit("--dry-run");
    reveal_strlit("-y");
    reveal_strlit("--yes");
    reveal_strlit("-h");
    reveal_strlit("--help");
    reveal_strlit("--json");
    reveal_strlit("--top");
    reveal_strlit("--top=");
    if a.len() > 0 && a[0] == '-' {
        assert(a.subrange(0, 1) =~= "-"@);
    }
    if has_prefix(a, "--top="@) {
        assert(a.subrange(0, 6)[0] == a[0]);
    }
}

/// A command is told by its first word, `--no-color` aside: nothing at all is the menu, and what is no
/// other command is taken for `clean`, which then is no dry run and asks.
pub proof fn commands_are_told_by_their_first_word(args: Seq<Seq<char>>)
    requires
        args.len() > 0,
        !args.contains("--no-color"@),
    ensures
        asked(seq![]) == RequestRow::Run(CliRow::Menu),
        args[0] == "analyze"@ || args[0] == "analyse"@ ==> asked(args) == analyze_from(
            args.skip(1),
            None,
            false,
            40,
        ),
        args[0] == "apps"@ ==> asked(args) == apps_from(args.skip(1), false, None),
        args[0] == "uninstall"@ ==> asked(args) == uninstall_from(
            args.skip(1),
            None,
            false,
            false,
            false,
        ),
        args[0] == "ctxmenu"@ ==> asked(args) == ctxmenu_asked(args.skip(1)),
        is_clean_switch(args[0]) ==> asked(args) == clean_from(
            args,
            OptionsRow {
                dry_run: false,
                yes: false,
                verbose: false,
                list: false,
                recycle_bin: false,
                only: None,
            },
        ),
{
    lemma_switches();
    lemma_nothing_dropped(args);
    reveal_strlit("analyze");
    reveal_strlit("analyse");
    reveal_strlit("apps");
    reveal_strlit("uninstall");
    reveal_strlit("ctxmenu");
    assert("analyze"@.len() == 7 && "analyse"@.len() == 7 && "apps"@.len() == 4 && "uninstall"@.len()
        == 9 && "ctxmenu"@.len() == 7);
    assert("analyze"@[0] == 'a' && "analyse"@[0] == 'a' && "ctxmenu"@[0] == 'c' && "uninstall"@[0]
        == 'u' && "--dry-run"@[0] == '-' && "--verbose"@[0] == '-') by {
        reveal_strlit("--dry-run");
        reveal_strlit("--verbose");
    }
}

proof fn lemma_nothing_dropped(args: Seq<Seq<char>>)
    requires
        !args.contains("--no-color"@),
    ensures
        without_no_color(args) == args,
    decreases args.len(),
{
    if args.len() > 0 {
        let front = args.drop_last();
        assert(args.contains(args[args.len() - 1]));
        assert(!front.contains("--no-color"@)) by {
            if front.contains("--no-color"@) {
                let i = choose|i: int| 0 <= i < front.len() && front[i] == "--no-color"@;
                assert(args[i] == "--no-color"@);
            }
        }
        lemma_nothing_dropped(front);
        assert(front.push(args.last()) =~= args);
    } else {
        assert(without_no_color(args) =~= args);
    }
}

/// `ctxmenu` hides what is named behind `off`, restores what is named behind `on`, and lists without
/// either; `analyze` takes a directory, and `apps` words to look for.
pub proof fn names_are_taken_as_they_are(name: Seq<char>)
    requires
        !has_prefix(name, "-"@),
    ensures
        ctxmenu_asked(seq!["off"@, name]) == RequestRow::Run(
            CliRow::Ctxmenu { action: Action::Off, filter: Some(name), json: false },
        ),
        ctxmenu_asked(seq!["on"@, name]) == RequestRow::Run(
            CliRow::Ctxmenu { action: Action::On, filter: Some(name), json: false },
        ),
        ctxmenu_asked(seq![]) == RequestRow::Run(
            CliRow::Ctxmenu { action: Action::List, filter: None, json: false },
        ),
        ctxmenu_asked(seq!["off"@]) is Bad,
        ctxmenu_asked(seq!["on"@]) is Bad,
        forall|top: usize| #[trigger]
            analyze_from(seq![name], None, false, top) == RequestRow::Run(
                CliRow::Analyze { path: Some(name), json: false, top },
            ),
        apps_from(seq![name], false, None) == RequestRow::Run(
            CliRow::Apps { json: false, filter: Some(name) },
        ),
        apps_from(seq![], false, None) == RequestRow::Run(
            CliRow::Apps { json: false, filter: None },
        ),
{
    lemma_no_switch(name);
    reveal_strlit("off");
    reveal_strlit("on");
    assert("off"@.len() == 3 && "on"@.len() == 2);
    let one = seq![name];
    assert(one.drop_first() =~= Seq::<Seq<char>>::empty());
    assert(seq!["off"@, name].skip(1) =~= one);
    assert(seq!["on"@, name].skip(1) =~= one);
    assert(seq!["off"@].skip(1) =~= Seq::<Seq<char>>::empty());
    assert(seq!["on"@].skip(1) =~= Seq::<Seq<char>>::empty());
    assert(Seq::<Seq<char>>::empty().skip(0) =~= Seq::<Seq<char>>::empty());
    assert(one[0] == name);
    reveal_with_fuel(ctxmenu_from, 2);
    reveal_with_fuel(apps_from, 2);
    assert forall|top: usize| #[trigger]
        analyze_from(one, None, false, top) == RequestRow::Run(
            CliRow::Analyze { path: Some(name), json: false, top },
        ) by {
        reveal_with_fuel(analyze_from, 2);
    }
}

} // verus!
