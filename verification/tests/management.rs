use std::cell::RefCell;
use std::collections::BTreeMap;

use dustpan::apps::{AppEntry, Source};
use dustpan::clean::{AuditEntry, Failure, FailureKind, Hands};
use dustpan::ctxmenu::{
    clean_menu_text, collect, disable, done, enable, find_matches, judge, looks_like_clsid,
    print_json, print_list, Classes, Kind, MenuEntry, Scope, Verdict,
};
use dustpan::safety::Safety;
use dustpan::scan::{Node, NodeKind};
use dustpan::sources::Found;
use dustpan::ui::Style;
use dustpan::uninstall::{
    after_exit, after_removing, check_choice, find_leftovers, first_stage, launch, leftover_report,
    leftover_roots, name_variants, offer, split_command_line, steam_command, sweep, swept_report,
    take_answer, take_leftover_answer, title, uninstall_command, uninstall_portable, uninstall_step,
    Exit, Leftover, Stage, Step, Swept, UninstallOptions,
};

fn entry(id: &str, text: &str, detail: &str) -> MenuEntry {
    MenuEntry {
        id: id.into(),
        text: text.into(),
        scope: Scope::Files,
        kind: Kind::Verb,
        clsid: String::new(),
        detail: detail.into(),
        disabled: false,
    }
}

#[test]
fn menu_text_cleanup() {
    assert_eq!(clean_menu_text("&Upload to Pan", "x"), "Upload to Pan");
    assert_eq!(clean_menu_text("上传到&百度网盘", "x"), "上传到百度网盘");
    assert_eq!(clean_menu_text("@shell32.dll,-8506", "runas"), "runas");
    assert_eq!(clean_menu_text("  ", "fallback"), "fallback");
}

#[test]
fn clsid_detection() {
    assert!(looks_like_clsid("{A1B2C3D4-1234-5678-9ABC-DEF012345678}"));
    assert!(!looks_like_clsid("7-Zip"));
    assert!(!looks_like_clsid("{short}"));
    assert!(!looks_like_clsid("{A1B2C3D4-1234-5678-9ABC-DEF01234567Z}"));
    assert!(looks_like_clsid("  {A1B2C3D4-1234-5678-9ABC-DEF012345678} "));
}

#[test]
fn matching_by_id_and_text() {
    let entries = vec![
        entry("BaiduNetdisk", "上传到百度网盘", "baidu.exe"),
        entry("7-Zip", "7-Zip", "7z.dll"),
    ];
    assert_eq!(find_matches(&entries, "baidu").len(), 1);
    assert_eq!(find_matches(&entries, "百度").len(), 1);
    assert_eq!(find_matches(&entries, "zip").len(), 1);
    assert_eq!(find_matches(&entries, "i").len(), 2); // ambiguous
    assert!(find_matches(&entries, "nothing").is_empty());
}

#[test]
fn builtin_detection_guards_windows_entries() {
    let win = entry(
        "runas",
        "Run as administrator",
        r"C:\Windows\System32\shell32.dll",
    );
    let vendor = entry("scan", "XX扫描", r"C:\Program Files\XX\scan.dll");
    let expandable = entry(
        "copyaspath",
        "Copy as path",
        r"%SystemRoot%\System32\shell32.dll",
    );
    assert!(win.is_windows_builtin());
    assert!(expandable.is_windows_builtin());
    assert!(!vendor.is_windows_builtin());
    assert!(entry("a", "b", r"%WinDir%\SysWOW64\x.dll").is_windows_builtin());
}

const CLSID: &str = "{A1B2C3D4-1234-5678-9ABC-DEF012345678}";

fn class_keys(path: &str) -> Option<Vec<String>> {
    let list = |names: &[&str]| Some(names.iter().map(|n| n.to_string()).collect());
    match path {
        "*\\shell" => list(&["runas", "upload", "broken"]),
        "Directory\\Background\\shellex\\ContextMenuHandlers" => list(&["Zip", CLSID, "useless"]),
        _ => None,
    }
}

fn class_value(path: &str, name: &str) -> Option<String> {
    let text = |s: &str| Some(s.to_string());
    let zip = "Directory\\Background\\shellex\\ContextMenuHandlers\\Zip";
    match (path, name) {
        ("*\\shell\\broken", _) => None,
        ("*\\shell\\runas", "") => text("@shell32.dll,-8506"),
        ("*\\shell\\upload", "MUIVerb") => text("&Upload"),
        ("*\\shell\\upload", "") => text("other"),
        ("*\\shell\\upload\\command", "") => text("up.exe %1"),
        ("*\\shell\\upload\\command", _) => text(""),
        (p, "") if p == zip => text(CLSID),
        (p, "") if p == format!("CLSID\\{}", CLSID) => text("Zip &Shell"),
        (p, "") if p == format!("CLSID\\{}\\InprocServer32", CLSID) => text("zip.dll"),
        ("*\\shell\\runas", _) | ("*\\shell\\upload", _) => text(""),
        ("Directory\\Background\\shellex\\ContextMenuHandlers\\useless", "") => text("none"),
        _ => None,
    }
}

#[test]
fn entries_are_collected() {
    let classes = Classes {
        subkeys: class_keys,
        value: class_value,
        has: |path: &str, name: &str| path == "*\\shell\\runas" && name == "LegacyDisable",
        blocked: |clsid: &str| clsid == CLSID,
    };
    let all = collect(&classes);
    let ids: Vec<&str> = all.iter().map(|e| e.id.as_str()).collect();
    assert_eq!(ids, vec!["runas", "upload", "Zip", CLSID]);
    assert_eq!(all[0].text, "runas");
    assert!(all[0].disabled);
    assert_eq!(all[1].text, "Upload");
    assert_eq!(all[1].detail, "up.exe %1");
    assert!(!all[1].disabled);
    assert_eq!(all[2].scope, Scope::Background);
    assert_eq!(all[2].kind, Kind::Handler);
    assert_eq!(all[2].text, "Zip Shell");
    assert_eq!(all[2].detail, "zip.dll");
    assert_eq!(all[2].clsid, CLSID);
    assert!(all[2].disabled);
    assert_eq!(all[3].clsid, CLSID);
}

#[test]
fn hiding_and_restoring_touch_one_value() {
    let verb = entry("upload", "Upload", "");
    let off = disable(&verb);
    assert_eq!(off.path, "Software\\Classes\\*\\shell\\upload");
    assert_eq!(off.name, "LegacyDisable");
    assert_eq!(off.data.as_deref(), Some(""));
    let on = enable(&verb);
    assert_eq!((on.path, on.name, on.data), (off.path, off.name, None));
    let mut handler = entry("Zip", "Zip Shell", "");
    handler.kind = Kind::Handler;
    handler.clsid = CLSID.to_string();
    let off = disable(&handler);
    assert_eq!(
        off.path,
        "Software\\Microsoft\\Windows\\CurrentVersion\\Shell Extensions\\Blocked"
    );
    assert_eq!(off.name, CLSID);
    assert_eq!(off.data.as_deref(), Some("Zip Shell"));
    assert_eq!(enable(&handler).data, None);
}

#[test]
fn requests_are_judged() {
    let plain = Style { on: false };
    let entries = vec![
        entry("runas", "Run as administrator", r"C:\Windows\System32\shell32.dll"),
        entry("upload", "Upload", "up.exe"),
        entry("upscan", "Scan", "scan.exe"),
    ];
    match judge(&entries, "nothing", true, &plain) {
        Verdict::Fail(why) => assert_eq!(why, "no context-menu entry matches 'nothing'"),
        _ => panic!("not refused"),
    }
    match judge(&entries, "up", true, &plain) {
        Verdict::Ambiguous(text) => {
            assert!(text.starts_with("2 matches for 'up', be more specific:\n  Upload "));
            assert!(text.contains("verb       files\n"));
        }
        _ => panic!("not ambiguous"),
    }
    match judge(&entries, "RUNAS", true, &plain) {
        Verdict::Fail(why) => assert_eq!(
            why,
            "'Run as administrator' looks like a Windows built-in entry, refusing to disable it"
        ),
        _ => panic!("not refused"),
    }
    match judge(&entries, "RUNAS", false, &plain) {
        Verdict::Write(0, write) => assert_eq!(write.data, None),
        _ => panic!("not restored"),
    }
    match judge(&entries, "scan", true, &plain) {
        Verdict::Write(2, write) => assert_eq!(write.data.as_deref(), Some("")),
        _ => panic!("not hidden"),
    }
    assert_eq!(
        done(&entries[1], true, &plain),
        "✓ disabled 'Upload'\ntakes effect for new Explorer windows; restart Explorer to apply everywhere\n"
    );
    assert!(done(&entries[1], false, &plain).starts_with("✓ restored 'Upload'\n"));
}

#[test]
fn entries_are_listed() {
    let plain = Style { on: false };
    let mut entries = vec![
        entry("runas", "Run", r"C:\Windows\System32\shell32.dll"),
        entry("upload", "Upload", ""),
    ];
    entries[1].disabled = true;
    entries[1].scope = Scope::Drive;
    let text = print_list(&entries, &plain);
    assert_eq!(
        text,
        format!(
            "Context menu  (2 entries)\n\nfiles\n   on  Run{} verb     [windows]\n       C:\\Windows\\System32\\shell32.dll\n\ndrives\n  off  Upload{} verb    \n\ndpan ctxmenu off <name> hides an entry · on <name> restores it · no admin needed\n",
            " ".repeat(31),
            " ".repeat(28)
        )
    );
    assert_eq!(
        print_json(&entries[1..].iter().map(|e| entry(&e.id, &e.text, "a\"b")).collect()),
        "[{\"id\":\"upload\",\"text\":\"Upload\",\"scope\":\"files\",\"kind\":\"verb\",\"clsid\":\"\",\"detail\":\"a\\\"b\",\"disabled\":false}]"
    );
    for scope in Scope::ALL {
        assert!(!scope.label().is_empty() && !scope.reg_path().is_empty());
    }
    assert_eq!(Scope::AllObjects.reg_path(), "AllFilesystemObjects");
    assert_eq!(Kind::Handler.label(), "handler");
}

#[test]
fn msi_guid_normalization() {
    let cmd =
        uninstall_command("MsiExec.exe /I{A1B2C3D4-1234-5678-9ABC-DEF012345678}").unwrap();
    assert_eq!(cmd[0], "msiexec");
    assert_eq!(cmd[1], "/x");
    assert_eq!(cmd[2], "{A1B2C3D4-1234-5678-9ABC-DEF012345678}");
    assert_eq!(cmd[3], "/qb");
    // /X spelling and extra args normalize the same way
    let cmd2 =
        uninstall_command("msiexec /X {A1B2C3D4-1234-5678-9ABC-DEF012345678} /quiet").unwrap();
    assert_eq!(cmd2[2], "{A1B2C3D4-1234-5678-9ABC-DEF012345678}");
}

#[test]
fn exe_command_splitting() {
    let cmd = uninstall_command(r#""C:\Program Files\7-Zip\Uninstall.exe" /S"#).unwrap();
    assert_eq!(cmd[0], r"C:\Program Files\7-Zip\Uninstall.exe");
    assert_eq!(cmd[1], "/S");
    // unquoted path with spaces, .exe heuristic
    let cmd2 = uninstall_command(r"C:\Program Files\Foo Bar\unins000.exe /SILENT").unwrap();
    assert_eq!(cmd2[0], r"C:\Program Files\Foo Bar\unins000.exe");
    assert_eq!(cmd2[1], "/SILENT");
    assert!(uninstall_command("   ").is_none());
}

#[test]
fn bogus_msi_guid_falls_through_to_exe_split() {
    // msiexec mention but broken guid -> treated as a plain command line
    let cmd = uninstall_command("msiexec.exe /x {not-a-guid}").unwrap();
    assert_eq!(cmd[0], "msiexec.exe");
}

#[test]
fn name_variant_generation() {
    assert_eq!(
        name_variants("Visual Studio Code"),
        vec![
            "visual studio code",
            "visualstudiocode",
            "visual-studio-code",
            "visual_studio_code"
        ]
    );
    // version/arch noise stripped
    assert!(name_variants("7-Zip 24.08 (x64)").contains(&"7-zip".to_string()));
    // single word: no duplicate variants
    assert_eq!(name_variants("Discord"), vec!["discord"]);
}

#[test]
fn command_lines_split() {
    assert_eq!(split_command_line("\"unclosed"), None);
    assert_eq!(split_command_line("  "), None);
    assert_eq!(
        split_command_line("setup /remove  now"),
        Some(vec!["setup".to_string(), "/remove".to_string(), "now".to_string()])
    );
    assert_eq!(
        split_command_line("İ C:\\A.EXE x"),
        Some(vec!["İ C:\\A.EXE".to_string(), "x".to_string()])
    );
    assert_eq!(split_command_line("\"\" x"), Some(vec![String::new(), "x".to_string()]));
}

#[test]
fn odd_names_have_variants() {
    assert_eq!(name_variants("2048 1.0"), vec!["2048 1.0", "20481.0", "2048-1.0", "2048_1.0"]);
    assert_eq!(name_variants("Foo-Bar"), vec!["foo-bar", "foo bar", "foobar", "foo_bar"]);
    assert_eq!(name_variants("foo_bar 2.1"), vec!["foo_bar", "foo bar", "foobar", "foo-bar"]);
    assert_eq!(name_variants(" App (x64) [beta]"), vec!["app x64) beta]", "appx64)beta]", "app-x64)-beta]", "app_x64)_beta]"]);
    assert_eq!(name_variants(""), vec![""]);
}

fn app(name: &str, source: Source) -> AppEntry {
    AppEntry {
        name: name.into(),
        version: "1.0".into(),
        publisher: String::new(),
        location: String::new(),
        uninstall_string: "u.exe /S".into(),
        reg_key: String::new(),
        size_bytes: None,
        install_date: None,
        source,
    }
}

#[test]
fn applications_are_removed_in_their_own_ways() {
    assert!(matches!(uninstall_step(&app("a", Source::Portable)), Step::Delete));
    let mut game = app("g", Source::Steam);
    game.uninstall_string = "steam://uninstall/570".into();
    match uninstall_step(&game) {
        Step::Steam(url) => {
            assert_eq!(url, "steam://uninstall/570");
            assert_eq!(steam_command(&url), vec!["cmd", "/C", "start", "", "steam://uninstall/570"]);
        }
        _ => panic!("not left to Steam"),
    }
    match uninstall_step(&app("a", Source::User)) {
        Step::Run(argv) => assert_eq!(argv, vec!["u.exe", "/S"]),
        _ => panic!("not run"),
    }
    let mut odd = app("Odd", Source::Machine);
    odd.uninstall_string = " ".into();
    match uninstall_step(&odd) {
        Step::Unusable(why) => assert_eq!(why, "no usable UninstallString for Odd"),
        _ => panic!("usable"),
    }
    assert_eq!(after_removing(true, Source::Steam), Stage::End(true));
    assert_eq!(after_removing(true, Source::Portable), Stage::Leftovers);
    assert_eq!(after_removing(false, Source::Portable), Stage::End(false));
}

#[test]
fn nothing_runs_in_a_dry_run() {
    let plain = Style { on: false };
    let argv = vec!["u.exe".to_string(), "/S".to_string()];
    let l = launch(&argv, true, true, &plain);
    assert_eq!((l.text.as_str(), l.run), ("running: u.exe /S\n", false));
    let l = launch(&argv, false, true, &plain);
    assert_eq!((l.text.as_str(), l.run), ("running: u.exe /S\n", true));
    let l = launch(&argv, false, false, &plain);
    assert_eq!(
        (l.text.as_str(), l.run),
        ("running: u.exe /S\nnot on Windows, skipping execution\n", false)
    );
    let opts = |dry_run: bool, yes: bool| UninstallOptions {
        filter: String::new(),
        dry_run,
        yes,
        no_color: false,
    };
    assert_eq!(first_stage(&opts(false, false), false), Stage::Ask);
    assert_eq!(first_stage(&opts(true, false), false), Stage::Remove);
    assert_eq!(first_stage(&opts(false, true), false), Stage::Remove);
    assert_eq!(first_stage(&opts(false, false), true), Stage::Remove);
    let no = take_answer(false);
    assert_eq!((no.text.as_str(), no.stage), ("Aborted.\n", Stage::End(true)));
    let yes = take_answer(true);
    assert_eq!((yes.text.as_str(), yes.stage), ("", Stage::Remove));
}

#[test]
fn ends_of_an_uninstaller() {
    let plain = Style { on: false };
    let said = |exit: Exit| {
        let s = after_exit(&exit, &plain);
        (s.text, s.is_error, s.ok)
    };
    assert_eq!(
        said(Exit::Code(Some(0))),
        ("✓ vendor uninstaller finished".to_string(), false, true)
    );
    assert_eq!(
        said(Exit::Code(Some(3010))),
        ("✓ uninstalled (reboot required)".to_string(), false, true)
    );
    assert_eq!(
        said(Exit::Code(Some(1602))),
        ("uninstaller exited with code 1602".to_string(), true, false)
    );
    assert_eq!(
        said(Exit::Code(Some(1))),
        ("uninstaller exited with code 1".to_string(), true, true)
    );
    assert_eq!(
        said(Exit::Code(None)),
        ("uninstaller exited with code -1".to_string(), true, true)
    );
    assert_eq!(
        said(Exit::NotStarted("nope".to_string())),
        ("failed to launch uninstaller: nope".to_string(), true, false)
    );
}

#[test]
fn one_application_must_answer() {
    let plain = Style { on: false };
    assert!(check_choice(&vec![app("a", Source::User)], "a", &plain).is_none());
    let none = check_choice(&vec![], "zip", &plain).unwrap();
    assert_eq!(none.text, "no installed app matches 'zip'");
    assert!(none.is_error && !none.ok);
    let many: Vec<AppEntry> = (0..12).map(|i| app(&format!("a{}", i), Source::User)).collect();
    let said = check_choice(&many, "a", &plain).unwrap();
    assert!(said.text.starts_with("12 matches for 'a', be more specific:\n  a0 "));
    assert_eq!(said.text.lines().count(), 11);
    assert!(!said.ok);
    let mut one = app("Zip", Source::User);
    one.location = "/opt/zip".into();
    assert_eq!(
        title(&one, &plain, true),
        "Uninstall  Zip 1.0  user\n  /opt/zip\n(dry run: nothing will be executed or deleted)\n"
    );
}

/// Sizes of the paths that are there.
struct Disk {
    sizes: RefCell<BTreeMap<String, u64>>,
    stuck: Vec<String>,
}

impl Disk {
    fn node(&self, path: &str) -> Option<Node> {
        let len = *self.sizes.borrow().get(path)?;
        Some(Node {
            name: String::new(),
            path: path.to_string(),
            kind: NodeKind::File,
            len,
            children: Vec::new(),
        })
    }

    fn remove(&self, path: &str) -> Result<(), Failure> {
        if self.stuck.iter().any(|s| s == path) {
            return Err(Failure { kind: FailureKind::Other, message: "in use".to_string() });
        }
        self.sizes.borrow_mut().remove(path);
        Ok(())
    }
}

fn disk() -> Disk {
    let sizes = [("/base/tool", 2048), ("/base/left", 10), ("/base/busy", 20), ("/other/x/y", 5)];
    Disk {
        sizes: RefCell::new(sizes.iter().map(|(p, s)| (p.to_string(), *s)).collect()),
        stuck: vec!["/base/busy".to_string()],
    }
}

#[test]
fn portable_applications_are_deleted_through_the_guard() {
    let plain = Style { on: false };
    let disk = disk();
    let safety = Safety::for_test(&vec!["/base".to_string()], &vec![]);
    let hands = Hands {
        read: |p: &str| disk.node(p),
        remove: |p: &str| disk.remove(p),
        elevate: |_: &str| false,
        note: |_: &AuditEntry| {},
    };
    let outside = uninstall_portable("/other/x/y", &safety, false, false, &plain, &hands);
    assert_eq!(
        outside.text,
        "refusing to delete /other/x/y: outside allowed base directories"
    );
    assert!(outside.is_error && !outside.ok);
    let dry = uninstall_portable("/base/tool", &safety, false, true, &plain, &hands);
    assert_eq!(dry.text, "would delete /base/tool (2.0 KB)");
    assert!(dry.ok);
    assert!(disk.node("/base/tool").is_some());
    let busy = uninstall_portable("/base/busy", &safety, false, false, &plain, &hands);
    assert_eq!(busy.text, "could not delete /base/busy (files in use?)");
    assert!(busy.is_error && !busy.ok);
    let gone = uninstall_portable("/base/tool", &safety, false, false, &plain, &hands);
    assert_eq!(gone.text, "✓ deleted /base/tool (2.0 KB)");
    assert!(gone.ok);
    assert!(disk.node("/base/tool").is_none());
}

fn left_tree(dir: &str) -> Option<Vec<Found>> {
    let item = |name: &str| Found {
        name: name.to_string(),
        path: format!("{}/{}", dir, name),
        is_file: false,
        is_dir: true,
        modified: None,
    };
    match dir {
        "/roam" => Some(vec![item("MyApp"), item("Maker"), item("unrelated")]),
        "/roam/Maker" => Some(vec![item("Bar"), item("my-app")]),
        "/local" => Some(vec![item("maker")]),
        "/local/maker" => Some(vec![item("other")]),
        _ => None,
    }
}

#[test]
fn leftovers_are_found() {
    let lookup = |v: &str| match v {
        "APPDATA" => Some("/roam".to_string()),
        "LOCALAPPDATA" => Some("/local".to_string()),
        _ => None,
    };
    let roots = leftover_roots(&lookup);
    assert_eq!(roots, vec!["/roam", "/local", "/local/Programs"]);
    let mut a = app("My App", Source::User);
    a.publisher = " MAKER ".into();
    a.location = "/opt/myapp".into();
    let read = |p: &str| {
        Some(Node {
            name: String::new(),
            path: p.to_string(),
            kind: NodeKind::File,
            len: p.len() as u64,
            children: Vec::new(),
        })
    };
    let found = find_leftovers(&a, &roots, true, &left_tree, &read);
    let paths: Vec<&str> = found.iter().map(|l| l.path.as_str()).collect();
    assert_eq!(paths, vec!["/roam/MyApp", "/roam/Maker/my-app", "/opt/myapp"]);
    assert_eq!(found[0].size, 11);
    a.source = Source::Portable;
    assert_eq!(find_leftovers(&a, &roots, true, &left_tree, &read).len(), 2);
    a.source = Source::User;
    assert_eq!(find_leftovers(&a, &roots, false, &left_tree, &read).len(), 2);
    a.publisher = String::new();
    assert_eq!(find_leftovers(&a, &roots, false, &left_tree, &read).len(), 1);
}

#[test]
fn other_applications_of_the_publisher_are_never_offered() {
    let tree = |dir: &str| -> Option<Vec<Found>> {
        let item = |name: &str| Found {
            name: name.to_string(),
            path: format!("{}/{}", dir, name),
            is_file: false,
            is_dir: true,
            modified: None,
        };
        match dir {
            "/roam" => Some(vec![item("Acme")]),
            "/roam/Acme" => Some(vec![item("Foo"), item("Bar")]),
            _ => None,
        }
    };
    let mut a = app("Foo", Source::User);
    a.publisher = "Acme".into();
    let read = |p: &str| {
        Some(Node {
            name: String::new(),
            path: p.to_string(),
            kind: NodeKind::File,
            len: p.len() as u64,
            children: Vec::new(),
        })
    };
    let found = find_leftovers(&a, &vec!["/roam".to_string()], false, &tree, &read);
    let rows: Vec<(&str, u64)> = found.iter().map(|l| (l.path.as_str(), l.size)).collect();
    assert_eq!(rows, vec![("/roam/Acme/Foo", 14)]);
}

#[test]
fn leftovers_are_swept_through_the_guard() {
    let plain = Style { on: false };
    let disk = disk();
    let safety = Safety::for_test(&vec!["/base".to_string()], &vec![]);
    let hands = Hands {
        read: |p: &str| disk.node(p),
        remove: |p: &str| disk.remove(p),
        elevate: |_: &str| false,
        note: |_: &AuditEntry| {},
    };
    let leftovers = vec![
        Leftover { path: "/base/left".to_string(), size: 10 },
        Leftover { path: "/base/busy".to_string(), size: 20 },
        Leftover { path: "/other/x/y".to_string(), size: 5 },
    ];
    let swept = sweep(&leftovers, &safety, false, &hands);
    assert_eq!((swept.freed, swept.kept), (10, 2));
    assert!(disk.node("/other/x/y").is_some());
    assert_eq!(
        swept_report(&swept, &plain),
        "✓ freed 10 B\n  2 paths kept (protected or in use)\n"
    );
    assert_eq!(swept_report(&Swept { freed: 0, kept: 0 }, &plain), "✓ freed 0 B\n");
    let mut a = app("x", Source::User);
    a.reg_key = "HKLM\\X".into();
    assert_eq!(
        leftover_report(&a, &leftovers, false, &plain),
        "registry entry (removed by the uninstaller, or remove manually): HKLM\\X\n\nLeftovers found (35 B):\n        10 B  /base/left\n        20 B  /base/busy\n         5 B  /other/x/y\n"
    );
    assert_eq!(
        leftover_report(&a, &vec![], true, &plain),
        "no filesystem leftovers found\n"
    );
    assert!(leftover_report(&a, &leftovers, true, &plain).ends_with("dry run: leftovers not deleted\n"));
    assert_eq!(offer(0, false, true), Stage::End(true));
    assert_eq!(offer(2, true, true), Stage::End(true));
    assert_eq!(offer(2, false, true), Stage::Sweep);
    assert_eq!(offer(2, false, false), Stage::AskLeftovers);
    let no = take_leftover_answer(false);
    assert_eq!((no.text.as_str(), no.stage), ("Leftovers kept.\n", Stage::End(true)));
    let yes = take_leftover_answer(true);
    assert_eq!((yes.text.as_str(), yes.stage), ("", Stage::Sweep));
}
