use dustpan::cli::{
    help_text, parse_args, parse_categories, version_text, Cli, Options, Request,
};
use dustpan::ctxmenu::Action as MenuAction;
use dustpan::menu::{
    analyze_candidates, analyze_items, choose_inner, choose_place, draw, draw_places,
    draw_settings, no_terminal, take_typed, typed_path, Action, FormStep, MenuStep, PlaceStep,
    SettingsForm, Typed, ITEMS, SETTINGS_ITEMS,
};
use dustpan::settings::{path, Settings};
use dustpan::targets::Category;
use dustpan::term::{next_key, read_key, term_rows, Key, KeyState, KeyStep};
use dustpan::ui::Style;

fn key(bytes: &[u8]) -> Key {
    read_key(bytes).0
}

#[test]
fn vim_keys() {
    assert_eq!(key(b"j"), Key::Down);
    assert_eq!(key(b"k"), Key::Up);
    assert_eq!(key(b"h"), Key::Left);
    assert_eq!(key(b"l"), Key::Right);
    assert_eq!(key(b"g"), Key::Top);
    assert_eq!(key(b"G"), Key::Bottom);
    assert_eq!(key(b"q"), Key::Quit);
    assert_eq!(key(b"\r"), Key::Enter);
    assert_eq!(key(b" "), Key::Space); // select toggle, never an action
    assert_eq!(key(b"4"), Key::Number(4));
    assert_eq!(key(b"u"), Key::Left);
}

#[test]
fn arrow_keys_and_escape() {
    assert_eq!(key(b"\x1b[A"), Key::Up);
    assert_eq!(key(b"\x1b[B"), Key::Down);
    assert_eq!(key(b"\x1b[C"), Key::Right);
    assert_eq!(key(b"\x1b[D"), Key::Left);
    assert_eq!(key(b"\x1b[5~"), Key::PageUp);
    assert_eq!(key(b"\x1b[6~"), Key::PageDown);
    assert_eq!(key(b"\x1b"), Key::Quit); // bare ESC
    assert_eq!(key(b""), Key::Quit); // EOF
}

#[test]
fn control_keys() {
    assert_eq!(key(b"\x03"), Key::Quit); // Ctrl-C
    assert_eq!(key(b"\x15"), Key::PageUp); // Ctrl-U
    assert_eq!(key(b"\x06"), Key::PageDown); // Ctrl-F
    assert_eq!(key(b"x"), Key::Other);
}

#[test]
fn keys_take_the_bytes_they_need() {
    assert_eq!(read_key(b"jk"), (Key::Down, 1));
    assert_eq!(read_key(b"\x1b[5~j"), (Key::PageUp, 4));
    assert_eq!(read_key(b"\x1b[Aj"), (Key::Up, 3));
    assert_eq!(read_key(b"\x1bxj"), (Key::Quit, 2));
    assert_eq!(read_key(b"\x1b["), (Key::Other, 2));
    assert_eq!(read_key(b"\x1b[H"), (Key::Top, 3));
    assert_eq!(read_key(b"\x1b[F"), (Key::Bottom, 3));
    assert_eq!(read_key(b"\x1b[Z"), (Key::Other, 3));
    assert_eq!(read_key(b""), (Key::Quit, 0));
    assert_eq!(read_key(b"0"), (Key::Other, 1));
    assert_eq!(read_key(b"\x04"), (Key::Quit, 1));
}

#[test]
fn byte_by_byte_gives_the_same_key() {
    for bytes in [&b"j"[..], b"\x1b[A", b"\x1b[6~", b"\x1b", b"\x1b[", b"", b"\x1bO"] {
        let mut state = KeyState::Start;
        let mut at = 0;
        let got = loop {
            match next_key(state, bytes.get(at).copied()) {
                KeyStep::Done(k) => break k,
                KeyStep::More(next) => {
                    state = next;
                    at += 1;
                }
            }
        };
        assert_eq!(got, key(bytes));
    }
}

#[test]
fn terminal_heights() {
    assert_eq!(term_rows(Some("50 120\n")), 50);
    assert_eq!(term_rows(Some("junk")), 24);
    assert_eq!(term_rows(None), 24);
}

#[test]
fn menu_actions_stay_in_display_order() {
    assert_eq!(ITEMS[0].0, Action::Clean);
    assert_eq!(ITEMS[1].0, Action::Apps);
    assert_eq!(ITEMS[2].0, Action::Analyze);
    assert_eq!(ITEMS[3].0, Action::Ctxmenu);
    assert_eq!(ITEMS[4].0, Action::Settings);
}

#[test]
fn menu_keys() {
    assert_eq!(choose_inner(0, Key::Up), MenuStep::At(0));
    assert_eq!(choose_inner(0, Key::Down), MenuStep::At(1));
    assert_eq!(choose_inner(4, Key::Down), MenuStep::At(4));
    assert_eq!(choose_inner(3, Key::Top), MenuStep::At(0));
    assert_eq!(choose_inner(0, Key::Bottom), MenuStep::At(4));
    assert_eq!(choose_inner(0, Key::Number(3)), MenuStep::Chosen(Action::Analyze));
    assert_eq!(choose_inner(2, Key::Number(9)), MenuStep::At(2));
    assert_eq!(choose_inner(1, Key::Enter), MenuStep::Chosen(Action::Apps));
    assert_eq!(choose_inner(4, Key::Right), MenuStep::Chosen(Action::Settings));
    assert_eq!(choose_inner(1, Key::Space), MenuStep::At(1));
    assert_eq!(choose_inner(1, Key::Quit), MenuStep::Leave);
    assert_eq!(choose_inner(1, Key::Left), MenuStep::Leave);
}

#[test]
fn menu_screen() {
    let plain = Style { on: false };
    assert_eq!(
        draw(1, &plain),
        "\u{1b}[H\u{1b}[2J\n  dustpan\n  Clean and inspect your Windows PC\n\n\
         \x20   1  Clean          Free up disk space  \n\
         \x20   2  Apps           Manage or uninstall applications  \n\
         \x20   3  Analyze        Explore disk usage  \n\
         \x20   4  Context Menu   Inspect right-click menu entries  \n\
         \x20   5  Settings       Change remembered preferences  \n\
         \n  ↑↓/j/k move  •  Enter select  •  1-5 quick select  •  q quit\n"
    );
    let on = Style { on: true };
    assert!(draw(1, &on).contains("  \u{1b}[7m  2  Apps           Manage or uninstall applications  \u{1b}[0m\n"));
    assert_eq!(
        no_terminal(),
        "dpan needs an interactive terminal when run without a command.\n\
         Run `dpan --help` for usage or `dpan clean` to clean."
    );
}

fn saved(step: FormStep) -> Settings {
    match step {
        FormStep::Save(s) => s,
        _ => panic!("not saved"),
    }
}

#[test]
fn the_settings_form() {
    let mut form = SettingsForm::new(&Settings::default());
    assert_eq!(form.ticked, vec![true, true, true, true, true, false, true, true]);
    let same = saved(form.press(Key::Enter));
    assert_eq!(same.categories, Category::ALL.to_vec());
    assert!(!same.recycle_bin && same.confirm_clean && same.color);

    for n in 1..6 {
        assert!(matches!(form.press(Key::Number(n)), FormStep::Stay));
    }
    assert!(matches!(form.press(Key::Enter), FormStep::Stay));
    assert_eq!(form.message, "Keep at least one cleaning area enabled");
    assert!(matches!(form.press(Key::Bottom), FormStep::Stay));
    assert_eq!(form.message, "");
    assert_eq!(form.cursor, 7);
    assert!(matches!(form.press(Key::Number(6)), FormStep::Stay));
    assert_eq!(form.cursor, 5);
    let bin = saved(form.press(Key::Right));
    assert!(bin.categories.is_empty() && bin.recycle_bin);
    assert!(matches!(form.press(Key::Space), FormStep::Stay));
    assert!(matches!(form.press(Key::Space), FormStep::Stay));
    assert!(saved(form.press(Key::Enter)).recycle_bin);
    assert!(matches!(form.press(Key::Quit), FormStep::Cancel));
    assert!(matches!(form.press(Key::Left), FormStep::Cancel));
}

#[test]
fn the_settings_screen() {
    let mut form = SettingsForm::new(&Settings::default());
    form.press(Key::Down);
    form.message = "careful".to_string();
    let text = draw_settings(&form, &Style { on: false });
    assert!(text.starts_with("\u{1b}[H\u{1b}[2J\n  Settings\n  Defaults used by the argument-free workflow\n\n"));
    assert!(text.contains("  1  [x]  Temporary files  \n    2  [x]  System caches  \n  3  [x]"));
    assert!(text.contains("  6  [ ]  Recycle Bin  \n"));
    assert!(text.ends_with("q cancel\n\n  careful\n"));
    assert_eq!(SETTINGS_ITEMS.len(), 8);
}

#[test]
fn places_to_look_into() {
    let candidates = analyze_candidates(Some("/home/u"), false);
    assert_eq!(candidates.len(), 5);
    let items = analyze_items(&candidates, &vec![false, true, false, true, true]);
    let labels: Vec<&str> = items.iter().map(|i| i.label.as_str()).collect();
    assert_eq!(labels, vec!["Home", "Desktop", "Documents", "Pictures", "Custom path..."]);
    assert_eq!(items[0].path.as_deref(), Some("/home/u"));
    assert_eq!(items[1].path.as_deref(), Some("/home/u/Desktop"));
    assert_eq!(items[4].path, None);
    let none = analyze_candidates(None, false);
    assert!(none.is_empty());
    assert_eq!(analyze_items(&none, &vec![]).len(), 1);
    assert_eq!(analyze_candidates(None, true).len(), 26);
    let text = draw_places(&items, 1, &Style { on: false });
    assert!(text.contains("  1  Home             /home/u  \n    2  Desktop          /home/u/Desktop  \n"));
}

#[test]
fn drives_are_listed_where_they_are() {
    let candidates = analyze_candidates(None, true);
    let mut there = vec![false; 26];
    there[2] = true;
    there[25] = true;
    let items = analyze_items(&candidates, &there);
    let labels: Vec<&str> = items.iter().map(|i| i.label.as_str()).collect();
    assert_eq!(labels, vec!["Drive C:", "Drive Z:", "Custom path..."]);
    assert_eq!(items[0].path.as_deref(), Some("C:\\"));
}

#[test]
fn keys_in_the_choice_of_a_place() {
    assert_eq!(choose_place(0, 3, Key::Up), PlaceStep::At(0));
    assert_eq!(choose_place(2, 3, Key::Down), PlaceStep::At(2));
    assert_eq!(choose_place(0, 3, Key::Bottom), PlaceStep::At(2));
    assert_eq!(choose_place(2, 3, Key::Top), PlaceStep::At(0));
    assert_eq!(choose_place(0, 3, Key::Number(3)), PlaceStep::Chosen(2));
    assert_eq!(choose_place(1, 3, Key::Number(4)), PlaceStep::At(1));
    assert_eq!(choose_place(1, 3, Key::Enter), PlaceStep::Chosen(1));
    assert_eq!(choose_place(1, 3, Key::Left), PlaceStep::Leave);
    assert_eq!(choose_place(1, 3, Key::Other), PlaceStep::At(1));
}

#[test]
fn typed_paths() {
    assert_eq!(typed_path("  \"C:\\My Files\"\r\n"), Some("C:\\My Files".to_string()));
    assert_eq!(typed_path("\n"), None);
    assert_eq!(typed_path("\"\"\"\n"), None);
    let yes = |_: &str| true;
    let no = |_: &str| false;
    assert!(matches!(take_typed("", &yes), Typed::Cancel));
    match take_typed("\"/a b\"\n", &yes) {
        Typed::Chosen(s) => assert_eq!(s.path, "/a b"),
        _ => panic!("not chosen"),
    }
    match take_typed("/a\n", &no) {
        Typed::Again(text) => assert_eq!(text, "Not a readable directory: /a\n"),
        _ => panic!("not refused"),
    }
}

#[test]
fn settings_files() {
    let none = Settings::load(None);
    assert_eq!(none.categories, Category::ALL.to_vec());
    let s = Settings::load(Some(
        "# mine\ncategories = dev, temp ,dev,nonsense\nrecycle_bin=ON\r\nconfirm_clean = 0\ncolor=maybe\njunk\n",
    ));
    assert_eq!(s.categories, vec![Category::Dev, Category::Temp]);
    assert!(s.recycle_bin && !s.confirm_clean && s.color);
    assert!(Settings::load(Some("categories=\n")).categories.is_empty());
    assert_eq!(Settings::load(Some("categories=nonsense")).categories.len(), 5);
    assert_eq!(
        s.render(),
        "categories=dev,temp\nrecycle_bin=true\nconfirm_clean=false\ncolor=true\n"
    );
}

#[test]
fn settings_read_back() {
    for (cats, bits) in [
        (vec![], 0u8),
        (vec![Category::Apps], 1),
        (vec![Category::Browser, Category::Temp], 6),
        (Category::ALL.to_vec(), 7),
    ] {
        let s = Settings {
            categories: cats,
            recycle_bin: bits & 1 == 1,
            confirm_clean: bits & 2 == 2,
            color: bits & 4 == 4,
        };
        let back = Settings::load(Some(&s.render()));
        assert_eq!(back.categories, s.categories);
        assert_eq!(back.recycle_bin, s.recycle_bin);
        assert_eq!(back.confirm_clean, s.confirm_clean);
        assert_eq!(back.color, s.color);
    }
}

#[test]
fn settings_have_their_place() {
    let roaming = |v: &str| if v == "APPDATA" { Some("/roam".to_string()) } else { None };
    assert_eq!(path(&roaming), Some("/roam/dustpan/settings.conf".to_string()));
    let home = |v: &str| if v == "HOME" { Some("/h".to_string()) } else { None };
    assert_eq!(path(&home), Some("/h/.config/dustpan/settings.conf".to_string()));
    assert_eq!(path(&|_: &str| None), None);
}

fn request(args: &[&str]) -> (bool, Request) {
    let args: Vec<String> = args.iter().map(|s| s.to_string()).collect();
    parse_args(&args)
}

fn run(args: &[&str]) -> Cli {
    match request(args).1 {
        Request::Run(cli) => cli,
        Request::Bad(why) => panic!("{}", why),
        _ => panic!("not a command"),
    }
}

fn bad(args: &[&str]) -> String {
    match request(args).1 {
        Request::Bad(why) => why,
        _ => panic!("accepted"),
    }
}

fn cleaning(args: &[&str]) -> Options {
    match run(args) {
        Cli::Clean(o) => o,
        _ => panic!("not cleaning"),
    }
}

#[test]
fn no_arguments_open_the_menu() {
    assert!(matches!(run(&[]), Cli::Menu));
    let (no_color, what) = request(&["--no-color"]);
    assert!(no_color);
    assert!(matches!(what, Request::Run(Cli::Menu)));
}

#[test]
fn clean_arguments() {
    let o = cleaning(&["clean", "-n", "--yes", "-v", "--list", "--recycle-bin"]);
    assert!(o.dry_run && o.yes && o.verbose && o.list && o.recycle_bin);
    assert_eq!(o.only, None);
    let o = cleaning(&["--dry-run", "--only", "dev, browser,dev"]);
    assert!(o.dry_run && !o.yes);
    assert_eq!(o.only, Some(vec![Category::Dev, Category::Browser]));
    assert_eq!(cleaning(&["--only=temp"]).only, Some(vec![Category::Temp]));
    assert_eq!(bad(&["--only"]), "--only needs a value, e.g. --only dev,browser");
    assert_eq!(bad(&["--only", " , "]), "--only needs at least one category");
    assert_eq!(
        bad(&["--only=games"]),
        "unknown category 'games' (temp, system, browser, dev, apps)"
    );
    assert_eq!(bad(&["clean", "--wat"]), "unknown argument: --wat");
    assert!(matches!(request(&["-V"]).1, Request::Version));
    assert!(matches!(request(&["clean", "-h"]).1, Request::Help));
    assert_eq!(parse_categories("apps"), Ok(vec![Category::Apps]));
}

#[test]
fn analyze_arguments() {
    match run(&["analyze", "/x", "--json", "--top", "5"]) {
        Cli::Analyze(o) => {
            assert_eq!(o.path.as_deref(), Some("/x"));
            assert!(o.json);
            assert_eq!(o.top, 5);
        }
        _ => panic!("not analyze"),
    }
    match run(&["analyze"]) {
        Cli::Analyze(o) => assert_eq!((o.path, o.json, o.top), (None, false, 40)),
        _ => panic!("not analyze"),
    }
    assert_eq!(bad(&["analyze", "--top"]), "--top needs a number");
    assert_eq!(bad(&["analyze", "--top=x"]), "invalid --top value: x");
    assert_eq!(bad(&["analyze", "--top", "-1"]), "invalid --top value: -1");
    assert_eq!(bad(&["analyze", "a", "b"]), "unexpected extra path: b");
    assert_eq!(bad(&["analyze", "-x"]), "unknown argument: -x");
}

#[test]
fn apps_arguments() {
    match run(&["apps", "zip", "--json"]) {
        Cli::Apps(o) => assert_eq!((o.filter.as_deref(), o.json), (Some("zip"), true)),
        _ => panic!("not apps"),
    }
    assert_eq!(bad(&["apps", "a", "b"]), "unexpected extra filter: b");
    assert_eq!(bad(&["apps", "--x"]), "unknown argument: --x");
    assert!(matches!(request(&["apps", "--help"]).1, Request::Help));
}

#[test]
fn uninstall_arguments() {
    match run(&["uninstall", "7-zip", "-n", "--yes", "--no-color"]) {
        Cli::Uninstall(o) => {
            assert_eq!(o.filter, "7-zip");
            assert!(o.dry_run && o.yes && o.no_color);
        }
        _ => panic!("not uninstall"),
    }
    assert_eq!(bad(&["uninstall"]), "uninstall needs an app name, e.g. `dpan uninstall 7-zip`");
    assert_eq!(bad(&["uninstall", "a", "b"]), "unexpected extra argument: b");
    assert_eq!(bad(&["uninstall", "-q"]), "unknown argument: -q");
}

#[test]
fn ctxmenu_arguments() {
    match run(&["ctxmenu", "off", "zip"]) {
        Cli::Ctxmenu(o) => {
            assert_eq!(o.action, MenuAction::Off);
            assert_eq!(o.filter.as_deref(), Some("zip"));
            assert!(!o.json);
        }
        _ => panic!("not ctxmenu"),
    }
    match run(&["ctxmenu", "--json"]) {
        Cli::Ctxmenu(o) => assert_eq!((o.action, o.json), (MenuAction::List, true)),
        _ => panic!("not ctxmenu"),
    }
    match run(&["ctxmenu", "on", "off"]) {
        Cli::Ctxmenu(o) => assert_eq!((o.action, o.filter.as_deref()), (MenuAction::On, Some("off"))),
        _ => panic!("not ctxmenu"),
    }
    assert_eq!(
        bad(&["ctxmenu", "on"]),
        "ctxmenu on/off needs an entry name, e.g. `dpan ctxmenu off 百度`"
    );
    assert_eq!(bad(&["ctxmenu", "a", "b"]), "unexpected extra argument: b");
    assert_eq!(bad(&["ctxmenu", "-x"]), "unknown argument: -x");
}

#[test]
fn no_color_may_stand_anywhere() {
    for args in [
        vec!["--no-color", "clean", "-n"],
        vec!["clean", "--no-color", "-n"],
        vec!["clean", "-n", "--no-color"],
    ] {
        let (no_color, what) = request(&args);
        assert!(no_color);
        match what {
            Request::Run(Cli::Clean(o)) => assert!(o.dry_run),
            _ => panic!("not cleaning"),
        }
    }
}

#[test]
fn help_and_version() {
    let help = help_text("1.2.3");
    assert!(help.starts_with("dpan 1.2.3 — lightweight Windows cache cleaner\n\nUSAGE:\n"));
    assert!(help.ends_with("%LOCALAPPDATA%\\dustpan\\operations.log\n"));
    for word in ["clean", "analyze", "apps", "uninstall", "ctxmenu", "--no-color"] {
        assert!(help.contains(word));
    }
    assert_eq!(version_text("1.2.3"), "dpan 1.2.3\n");
}
