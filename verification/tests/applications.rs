use dustpan::apps::{
    collect, filter_apps, merge_steam_games, norm_path, sort_apps, AppEntry, Source,
};
use dustpan::inventory::{batch_outcome, batch_summary, print_json, print_table, truncate};
use dustpan::paths::{path_below, path_from, PathParts};
use dustpan::picker::{
    entry_key, location_computable, picker_viewport, render_picker, size_or_dash, total_of, Pick,
    Picker,
};
use dustpan::reg::{dword_value, string_value, wide, REG_DWORD, REG_EXPAND_SZ, REG_SZ};
use dustpan::scan::{Node, NodeKind};
use dustpan::sources::{
    contains_exe, fmt_install_date, hives, parse_portable_dirs, portable_apps, portable_list_path,
    portable_roots, registry_apps, scoop_version, should_hide, Found, RawApp, Root,
};
use dustpan::steam::{
    collect_from_root, kv_line, parse_acf, parse_library_paths, registry_app_id, steam_root,
    SteamFiles,
};
use dustpan::term::Key;
use dustpan::text::{chars_of, string_of};
use dustpan::ui::{display_width, Style};
use dustpan::version::not_above;

fn entry(name: &str, size: Option<u64>, date: Option<&str>) -> AppEntry {
    AppEntry {
        name: name.into(),
        version: String::new(),
        publisher: String::new(),
        location: String::new(),
        uninstall_string: String::new(),
        reg_key: String::new(),
        size_bytes: size,
        install_date: date.map(String::from),
        source: Source::Machine,
    }
}

fn at(name: &str, location: &str, size: Option<u64>) -> AppEntry {
    let mut app = entry(name, size, None);
    app.location = location.to_string();
    app
}

fn names(apps: &[AppEntry]) -> Vec<&str> {
    apps.iter().map(|a| a.name.as_str()).collect()
}

#[test]
fn hide_rules_match_geek_behavior() {
    assert!(should_hide("", false, false, ""));
    assert!(should_hide("   ", false, false, ""));
    assert!(should_hide("Runtime", true, false, ""));
    assert!(should_hide("KB5001234", false, true, ""));
    assert!(should_hide("Update", false, false, "Security Update"));
    assert!(should_hide("Update", false, false, "Hotfix"));
    assert!(!should_hide("7-Zip", false, false, ""));
    assert!(should_hide("Update", false, false, "Update Rollup"));
    assert!(should_hide("Update", false, false, "ServicePack"));
    assert!(!should_hide("Update", false, false, "hotfix"));
}

#[test]
fn install_date_formatting() {
    assert_eq!(fmt_install_date("20240315"), Some("2024-03-15".into()));
    assert_eq!(fmt_install_date(""), None);
    assert_eq!(fmt_install_date("2024"), None);
    assert_eq!(fmt_install_date("2024031X"), None);
    assert_eq!(fmt_install_date(" 20240315 "), Some("2024-03-15".into()));
}

#[test]
fn sorting_biggest_first_unknown_last() {
    let mut apps = vec![
        entry("beta", Some(100), Some("2024-01-01")),
        entry("Alpha", Some(300), None),
        entry("gamma", None, Some("2025-06-01")),
    ];
    sort_apps(&mut apps);
    assert_eq!(apps[0].name, "Alpha"); // 300 bytes first
    assert_eq!(apps[1].name, "beta");
    assert_eq!(apps[2].name, "gamma"); // unknown size -> last
}

#[test]
fn equal_sizes_go_by_name_and_keep_their_order() {
    let mut apps = vec![
        at("b", "/1", Some(5)),
        at("A", "/2", Some(5)),
        at("B", "/3", Some(5)),
        at("zero", "/4", Some(0)),
        at("none", "/5", None),
    ];
    sort_apps(&mut apps);
    let order: Vec<&str> = apps.iter().map(|a| a.location.as_str()).collect();
    assert_eq!(order, vec!["/2", "/1", "/3", "/4", "/5"]);
}

#[test]
fn unknown_sizes_stand_below_a_known_zero() {
    let mut apps = vec![entry("a", None, None), entry("z", Some(0), None)];
    sort_apps(&mut apps);
    assert_eq!(names(&apps), vec!["z", "a"]);
    let mut apps = vec![entry("a", None, None), entry("b", Some(u64::MAX), None), entry("c", Some(1), None)];
    sort_apps(&mut apps);
    assert_eq!(names(&apps), vec!["b", "c", "a"]);
}

#[test]
fn steam_merge_replaces_only_games_with_matching_manifests() {
    let mut registry = vec![
        entry("Steam App 570", None, None),
        entry("Steam App 730", None, None),
    ];
    registry[0].uninstall_string = "steam://uninstall/570".into();
    registry[1].uninstall_string = "steam://uninstall/730".into();
    let mut replacement = entry("Dota 2", Some(100), None);
    replacement.uninstall_string = "steam://uninstall/570".into();
    replacement.source = Source::Steam;

    merge_steam_games(&mut registry, vec![replacement]);
    let names: Vec<&str> = registry.iter().map(|app| app.name.as_str()).collect();

    assert_eq!(names, vec!["Steam App 730", "Dota 2"]);
}

#[test]
fn no_games_leave_the_registry_alone() {
    let mut registry = vec![entry("Steam App 570", None, None), entry("Editor", None, None)];
    merge_steam_games(&mut registry, vec![]);
    assert_eq!(names(&registry), vec!["Steam App 570", "Editor"]);
}

#[test]
fn known_portables_are_not_repeated() {
    let registry = vec![at("Tool", "C:\\Tools\\Tool\\", None), entry("Named", None, None)];
    let portable = vec![
        at("other", "c:/tools/tool", Some(1)),
        at("NAMED", "/elsewhere", Some(1)),
        at("fresh", "/fresh", Some(1)),
        at("fresh", "/fresh2", Some(1)),
    ];
    let all = collect(registry, vec![], portable);
    assert_eq!(names(&all), vec!["Tool", "Named", "fresh", "fresh"]);
    assert_eq!(string_of(&norm_path("C:/Tools\\X\\\\")), "c:\\tools\\x");
}

#[test]
fn filtering_ignores_case() {
    let apps = vec![entry("7-Zip", None, None), entry("Editor", None, None)];
    assert_eq!(names(&filter_apps(apps, "ZIP")), vec!["7-Zip"]);
    let apps = vec![entry("7-Zip", None, None)];
    assert_eq!(filter_apps(apps, "").len(), 1);
}

/// What lies in the directories of the portable layout.
fn portable_tree(dir: &str) -> Option<Vec<Found>> {
    let item = |name: &str, is_dir: bool| Found {
        name: name.to_string(),
        path: format!("{}/{}", dir, name),
        is_file: !is_dir,
        is_dir,
        modified: Some(1721718000),
    };
    match dir {
        "/r/AppData/Local/Programs" => {
            Some(vec![item("MyTool", true), item("JustData", true), item("loose.exe", false)])
        }
        "/r/AppData/Local/Programs/MyTool" => Some(vec![item("mytool.exe", false)]),
        "/r/AppData/Local/Programs/JustData" => Some(vec![item("readme.txt", false)]),
        "/r/scoop/apps" => Some(vec![item("ripgrep", true), item("scoop", true)]),
        "/r/scoop/apps/ripgrep" => {
            Some(vec![item("14.1.0", true), item("14.0.9", true), item("current", true)])
        }
        "/r/scoop/apps/ripgrep/14.1.0" => Some(vec![item("rg.EXE", false)]),
        "/r/scoop/apps/scoop" => Some(vec![item("scoop.exe", false)]),
        "/deep" => Some(vec![item("1", true)]),
        "/deep/1" => Some(vec![item("2", true)]),
        "/deep/1/2" => Some(vec![item("3", true)]),
        "/deep/1/2/3" => Some(vec![item("x.exe", false)]),
        _ => None,
    }
}

#[test]
fn portable_scan_detects_exe_dirs() {
    let programs = "/r/AppData/Local/Programs";
    let scoop = "/r/scoop/apps/ripgrep";
    assert!(contains_exe(&path_below(programs, &["MyTool"]), 2, &portable_tree));
    assert!(!contains_exe(&path_below(programs, &["JustData"]), 2, &portable_tree));
    assert!(contains_exe(scoop, 2, &portable_tree));
    assert_eq!(scoop_version(&portable_tree(scoop).unwrap()), Some("14.1.0".into()));
}

#[test]
fn programs_are_found_two_levels_deep() {
    assert!(!contains_exe("/deep", 2, &portable_tree));
    assert!(contains_exe("/deep", 3, &portable_tree));
    assert!(contains_exe("/deep/1", 2, &portable_tree));
    assert!(!contains_exe("/nowhere", 2, &portable_tree));
    assert_eq!(scoop_version(&vec![]), None);
}

fn directories(names: &[&str]) -> Vec<Found> {
    names
        .iter()
        .map(|name| Found {
            name: name.to_string(),
            path: format!("/scoop/{}", name),
            is_file: false,
            is_dir: true,
            modified: None,
        })
        .collect()
}

#[test]
fn the_highest_version_counts() {
    let highest = |names: &[&str]| scoop_version(&directories(names));
    assert_eq!(highest(&["9.0.0", "10.0.0", "current"]), Some("10.0.0".to_string()));
    assert_eq!(highest(&["1.10", "1.9.9"]), Some("1.10".to_string()));
    assert_eq!(highest(&["1.2", "1.2.1"]), Some("1.2.1".to_string()));
    assert_eq!(highest(&["99999999999999999999999999", "100000000000000000000000000"]),
        Some("100000000000000000000000000".to_string()));
    assert_eq!(highest(&["1.0", "1.00"]), Some("1.00".to_string()));
    assert_eq!(highest(&["beta", "alpha"]), Some("beta".to_string()));
    assert_eq!(highest(&["current"]), None);
}

#[test]
fn versions_in_order() {
    let sorted = ["0.9", "1", "1.0", "1.2.0", "1.10.0", "1.10.rc", "2", "10"];
    for (i, a) in sorted.iter().enumerate() {
        for (j, b) in sorted.iter().enumerate() {
            assert_eq!(not_above(&chars_of(a), &chars_of(b)), i <= j, "{} {}", a, b);
        }
    }
}

#[test]
fn portable_applications() {
    let roots = vec![
        PathParts::parse("/r/AppData/Local/Programs"),
        PathParts::parse("/missing"),
        PathParts::parse("/r/scoop/apps"),
    ];
    let read = |path: &str| {
        Some(Node {
            name: String::new(),
            path: path.to_string(),
            kind: NodeKind::File,
            len: path.len() as u64,
            children: Vec::new(),
        })
    };
    let apps = portable_apps(&roots, &portable_tree, &read);
    assert_eq!(names(&apps), vec!["MyTool", "ripgrep"]);
    assert_eq!(apps[0].version, "");
    assert_eq!(apps[0].location, "/r/AppData/Local/Programs/MyTool");
    assert_eq!(apps[0].size_bytes, Some(32));
    assert_eq!(apps[0].install_date.as_deref(), Some("2024-07-23"));
    assert_eq!(apps[1].version, "14.1.0");
    assert!(apps.iter().all(|a| a.source == Source::Portable));
}

#[test]
fn places_of_portable_applications() {
    let lookup = |v: &str| match v {
        "LOCALAPPDATA" => Some("/l".to_string()),
        "USERPROFILE" => Some("/u".to_string()),
        "APPDATA" => Some("/a".to_string()),
        _ => None,
    };
    let listed = parse_portable_dirs("# mine\n\n /x \r\n/y\n");
    assert_eq!(listed, vec!["/x", "/y"]);
    assert_eq!(
        portable_roots(&lookup, false, &listed),
        vec!["/l/Programs", "/u/scoop/apps", "/u/PortableApps", "/x", "/y"]
    );
    assert_eq!(portable_list_path(&lookup), Some("/a/dustpan/portable_dirs.txt".to_string()));
    assert_eq!(portable_roots(&|_: &str| None, true, &vec![]), vec!["C:\\PortableApps"]);
    assert_eq!(portable_list_path(&|_: &str| None), None);
}

fn raw(name: &str) -> RawApp {
    RawApp {
        root: Root::Machine,
        path: "SOFTWARE\\Uninstall".to_string(),
        sub: "Key".to_string(),
        source: Source::Machine32,
        display_name: name.to_string(),
        system_component: None,
        parent_key_name: String::new(),
        parent_display_name: String::new(),
        release_type: String::new(),
        display_version: "1.0".to_string(),
        publisher: "P".to_string(),
        install_location: "C:\\X".to_string(),
        quiet_uninstall_string: String::new(),
        uninstall_string: "u.exe".to_string(),
        estimated_size: Some(3),
        install_date: "20240315".to_string(),
    }
}

#[test]
fn registry_applications() {
    let mut hidden = raw("Runtime");
    hidden.system_component = Some(1);
    let mut patch = raw("KB1");
    patch.parent_display_name = "Parent".to_string();
    let mut quiet = raw("Quiet");
    quiet.quiet_uninstall_string = "q.exe /S".to_string();
    quiet.root = Root::User;
    quiet.estimated_size = None;
    quiet.system_component = Some(0);
    let apps = registry_apps(&vec![raw("Plain"), hidden, patch, quiet]);
    assert_eq!(names(&apps), vec!["Plain", "Quiet"]);
    assert_eq!(apps[0].uninstall_string, "u.exe");
    assert_eq!(apps[0].reg_key, "HKLM\\SOFTWARE\\Uninstall\\Key");
    assert_eq!(apps[0].size_bytes, Some(3072));
    assert_eq!(apps[0].install_date.as_deref(), Some("2024-03-15"));
    assert_eq!(apps[0].source, Source::Machine32);
    assert_eq!(apps[1].uninstall_string, "q.exe /S");
    assert_eq!(apps[1].reg_key, "HKCU\\SOFTWARE\\Uninstall\\Key");
    assert_eq!(apps[1].size_bytes, None);
    let hives = hives();
    assert_eq!(hives.len(), 3);
    assert_eq!(hives[0].source, Source::Machine);
    assert_eq!(
        hives[1].path,
        "SOFTWARE\\WOW6432Node\\Microsoft\\Windows\\CurrentVersion\\Uninstall"
    );
    assert_eq!(hives[2].root, Root::User);
}

#[test]
fn registry_values() {
    let bytes = |s: &str| -> Vec<u8> { s.encode_utf16().flat_map(|u| u.to_le_bytes()).collect() };
    assert_eq!(string_value(true, REG_SZ, &bytes("A上😀\0")), "A上😀");
    assert_eq!(string_value(true, REG_EXPAND_SZ, &bytes("%x%\0\0")), "%x%");
    assert_eq!(string_value(true, REG_DWORD, &bytes("x")), "");
    assert_eq!(string_value(false, REG_SZ, &bytes("x")), "");
    assert_eq!(string_value(true, REG_SZ, &[0x41, 0, 0x00, 0xd8, 0x42, 0]), "A\u{fffd}B");
    assert_eq!(dword_value(true, REG_DWORD, [1, 2, 0, 0]), Some(513));
    assert_eq!(dword_value(true, REG_SZ, [1, 0, 0, 0]), None);
    assert_eq!(dword_value(false, REG_DWORD, [1, 0, 0, 0]), None);
    let mut expected: Vec<u16> = "A上😀".encode_utf16().collect();
    expected.push(0);
    assert_eq!(wide("A上😀"), expected);
}

#[test]
fn truncate_handles_wide_names() {
    assert_eq!(truncate("short", 10), "short");
    assert_eq!(truncate("exactly-10", 10), "exactly-10");
    assert_eq!(truncate("this is far too long", 10), "this is f…");
    // CJK: 10 cells max -> 4 wide chars (8) + ellipsis (1) = 9 cells
    assert_eq!(truncate("上传到百度网盘助手", 10), "上传到百…");
    assert!(display_width(&truncate("上传到百度网盘助手", 10)) <= 10);
}

#[test]
fn picker_frame_never_exceeds_terminal_height_while_scrolling() {
    let mut apps: Vec<AppEntry> = (0..30)
        .map(|i| entry(&format!("App {i}"), Some(1024), Some("2026-08-14")))
        .collect();
    for app in &mut apps {
        app.location = r"C:\Program Files\Example".into();
        app.publisher = "Example Publisher".into();
    }
    let rows = 24usize;
    let viewport = picker_viewport(rows);
    let selected = vec![entry_key(&apps[20])];
    let frame = render_picker(
        &apps,
        &Style::auto(false, true, false),
        20,
        10,
        viewport,
        true,
        &selected,
        "selected App 20",
    );
    let rendered_lines = frame.split_terminator("\r\n").count();

    assert!(frame.starts_with("\x1b[H\x1b[2JApps"));
    assert!(!frame.ends_with("\r\n"));
    assert!(
        rendered_lines <= rows,
        "{rendered_lines} rendered lines overflow {rows} terminal rows"
    );
}

#[test]
fn lone_line_feeds_take_no_row_of_the_frame() {
    let mut apps = vec![at("a\nb\rc", "/x\n/y", Some(1)), entry("\n", None, None)];
    apps[0].publisher = "\nMaker\r".to_string();
    apps[0].install_date = Some("\n".to_string());
    let viewport = picker_viewport(10);
    let frame = render_picker(&apps, &Style { on: false }, 0, 0, viewport, true, &vec![], "\nhm\r");
    assert!(frame.starts_with("\x1b[H\x1b[2J"));
    assert_eq!(frame.split("\r\n").count(), viewport + 9);
    assert!(!frame.ends_with("\r\n"));
}

#[test]
fn a_picker_frame() {
    let mut apps = vec![at("Editor", "/opt/editor", Some(2048)), entry("上传", None, None)];
    apps[0].version = "1.2".to_string();
    apps[0].publisher = "Maker".to_string();
    apps[0].install_date = Some("2024-01-02".to_string());
    let plain = Style { on: false };
    let frame = render_picker(&apps, &plain, 0, 0, 1, false, &vec![], "");
    let pad = |s: &str, n: usize| format!("{}{}", s, " ".repeat(n));
    assert_eq!(
        frame,
        format!(
            "\x1b[H\x1b[2JApps  2 apps · 2.0 KB\r\n\
             j/k move · Space select · Enter uninstall · g/G jump · q quit\r\n\r\n \
             ❯   {} {}     2.0 KB  system\r\n   … 1/2 shown\r\n\r\n\
             location  /opt/editor\r\nMaker · installed 2024-01-02",
            pad("Editor", 38),
            pad("1.2", 11)
        )
    );
    let marked = render_picker(&apps, &plain, 1, 1, 5, true, &vec![entry_key(&apps[1])], "hello");
    assert_eq!(
        marked,
        format!(
            "\x1b[H\x1b[2JApps  2 apps · 2.0 KB\r\n\
             1 marked · Enter uninstalls them · Space toggle · q quit\r\n\r\n \
             ❯ ● {} {}          …  system\r\n\r\ncomputing size…\r\nhello",
            pad("上传", 40),
            " ".repeat(14)
        )
    );
}

#[test]
fn viewports() {
    assert_eq!(picker_viewport(24), 15);
    assert_eq!(picker_viewport(9), 1);
    assert_eq!(picker_viewport(0), 1);
    assert_eq!(picker_viewport(10000), 500);
    assert!(location_computable("/a/b"));
    assert!(!location_computable("/a"));
    assert!(!location_computable("/"));
    assert_eq!(size_or_dash(None), "-");
    assert_eq!(size_or_dash(Some(1)), "1 B");
    assert_eq!(total_of(&vec![entry("a", Some(u64::MAX), None), entry("b", Some(5), None)]), u64::MAX);
}

#[test]
fn picking() {
    let apps = vec![
        at("a", "/x/a", Some(10)),
        at("b", "/x/b", Some(20)),
        at("c", "/x/c", None),
    ];
    let mut p = Picker::new();
    assert!(matches!(p.press(&apps, 2, Key::Down), Pick::Stay));
    assert_eq!(p.cursor, 1);
    assert!(matches!(p.press(&apps, 2, Key::Space), Pick::Stay));
    assert_eq!(p.message, "● selected b — 1 marked, 20 B");
    assert_eq!(p.cursor, 2);
    assert!(matches!(p.press(&apps, 2, Key::Space), Pick::Stay));
    assert_eq!(p.message, "● selected c — 2 marked, 20 B");
    assert_eq!(p.cursor, 2);
    match p.press(&apps, 2, Key::Enter) {
        Pick::Leave(chosen) => assert_eq!(chosen, vec![1, 2]),
        Pick::Stay => panic!("nothing chosen"),
    }
    assert!(matches!(p.press(&apps, 2, Key::Space), Pick::Stay));
    assert_eq!(p.message, "○ unselected c — 1 marked, 20 B");
    assert!(matches!(p.press(&apps, 2, Key::Up), Pick::Stay));
    assert_eq!(p.message, "");
    assert!(matches!(p.press(&apps, 2, Key::Space), Pick::Stay));
    assert_eq!(p.message, "○ unselected b");
    match p.press(&apps, 2, Key::Right) {
        Pick::Leave(chosen) => assert_eq!(chosen, vec![2]),
        Pick::Stay => panic!("nothing chosen"),
    }
    match p.press(&apps, 2, Key::Quit) {
        Pick::Leave(chosen) => assert!(chosen.is_empty()),
        Pick::Stay => panic!("still there"),
    }
}

#[test]
fn sizes_are_measured_once() {
    let mut apps = vec![at("a", "/x/a", Some(10)), at("b", "/x/b", None), at("c", "/c", None)];
    let mut p = Picker::new();
    assert!(!p.needs_size(&apps));
    p.cursor = 2;
    assert!(!p.needs_size(&apps)); // too broad a place
    p.cursor = 1;
    assert!(p.needs_size(&apps));
    let found = Some(Node {
        name: String::new(),
        path: String::new(),
        kind: NodeKind::File,
        len: 99,
        children: Vec::new(),
    });
    p.take_size(&mut apps, &found);
    assert_eq!(names(&apps), vec!["b", "a", "c"]);
    assert_eq!(p.cursor, 0);
    assert_eq!(apps[0].size_bytes, Some(99));
    assert!(!p.needs_size(&apps));

    let mut apps = vec![at("gone", "/x/gone", None)];
    let mut p = Picker::new();
    assert!(p.needs_size(&apps));
    p.take_size(&mut apps, &None);
    assert_eq!(apps[0].size_bytes, None);
    assert!(!p.needs_size(&apps));
}

#[test]
fn the_cursor_is_brought_into_view() {
    let mut p = Picker::new();
    p.cursor = 9;
    p.bring_into_view(10, 4);
    assert_eq!((p.cursor, p.offset), (9, 6));
    p.cursor = 2;
    p.bring_into_view(10, 4);
    assert_eq!(p.offset, 2);
    p.cursor = 30;
    p.bring_into_view(10, 4);
    assert_eq!((p.cursor, p.offset), (9, 6));
}

#[test]
fn the_table() {
    let mut apps = vec![entry("Editor", Some(2048), Some("2024-01-02")), entry("B", None, None)];
    apps[1].source = Source::Portable;
    let pad = |s: &str, n: usize| format!("{}{}", s, " ".repeat(n - s.len()));
    assert_eq!(
        print_table(&apps, &Style { on: false }),
        format!(
            "Apps  (2 found)\n\n  {} {}     2.0 KB  2024-01-02 system\n  {} {}          -  -          portable\n\nsystem 1 · portable 1\n",
            pad("Editor", 42),
            pad("", 16),
            pad("B", 42),
            pad("", 16)
        )
    );
    assert_eq!(print_table(&vec![], &Style { on: false }), "Apps  (0 found)\n\n\n\n");
}

#[test]
fn the_inventory_as_json() {
    let mut apps = vec![entry("A \"x\"", Some(7), Some("2024-01-02")), entry("B", None, None)];
    apps[0].uninstall_string = "c:\\u.exe".to_string();
    assert_eq!(
        print_json(&apps),
        "[{\"name\":\"A \\\"x\\\"\",\"version\":\"\",\"publisher\":\"\",\"location\":\"\",\"uninstall\":\"c:\\\\u.exe\",\"size\":7,\"installed\":\"2024-01-02\",\"source\":\"system\"},\
         {\"name\":\"B\",\"version\":\"\",\"publisher\":\"\",\"location\":\"\",\"uninstall\":\"\",\"size\":null,\"installed\":null,\"source\":\"system\"}]"
    );
    assert_eq!(print_json(&vec![]), "[]");
}

#[test]
fn batches() {
    let apps = vec![entry("A", Some(1024), None), entry("B", None, None), entry("C", Some(1), None)];
    let text = batch_summary(&apps, &vec![0, 1], &Style { on: false });
    assert!(text.starts_with("Uninstall  2 apps · 1.0 KB\n  A "));
    assert!(text.contains("     1.0 KB  system\n  B "));
    assert_eq!(batch_outcome(0, 3), None);
    assert_eq!(batch_outcome(2, 3), Some("2 of 3 uninstalls reported problems".to_string()));
    assert_eq!(Source::Steam.label(), "steam");
    assert_eq!(Source::User.label(), "user");
    assert_eq!(Source::Machine32.label(), "sys32");
}

const ACF: &str = r#"
"AppState"
{
	"appid"		"570"
	"Universe"		"1"
	"name"		"Dota 2"
	"StateFlags"		"4"
	"installdir"		"dota 2 beta"
	"LastUpdated"		"1721718000"
	"SizeOnDisk"		"39125612544"
	"buildid"		"14923282"
}
"#;

const VDF: &str = r#"
"libraryfolders"
{
	"0"
	{
		"path"		"C:\\Program Files (x86)\\Steam"
		"label"		""
	}
	"1"
	{
		"path"		"D:\\SteamLibrary"
		"totalsize"		"2000396288000"
	}
}
"#;

#[test]
fn acf_parsing() {
    let game = parse_acf(ACF).unwrap();
    assert_eq!(game.appid, "570");
    assert_eq!(game.name, "Dota 2");
    assert_eq!(game.installdir, "dota 2 beta");
    assert_eq!(game.size_on_disk, 39_125_612_544);
    assert_eq!(game.last_updated, 1_721_718_000);
    assert!(parse_acf("\"AppState\"\n{\n}").is_none());
}

#[test]
fn vdf_library_paths() {
    let paths = parse_library_paths(VDF);
    assert_eq!(
        paths,
        vec![r"C:\Program Files (x86)\Steam", r"D:\SteamLibrary"]
    );
}

#[test]
fn registry_steam_ids_are_extracted_for_per_game_deduplication() {
    assert_eq!(registry_app_id("Steam App 570", ""), Some("570".into()));
    assert_eq!(
        registry_app_id("Dota 2", r#""steam.exe" steam://uninstall/570"#),
        Some("570".into())
    );
    assert_eq!(
        registry_app_id("Dota 2", "STEAM://UNINSTALL/570"),
        Some("570".into())
    );
    assert_eq!(registry_app_id("Steam", r#""C:\...\uninstall.exe""#), None);
}

#[test]
fn kv_line_handles_escaped_quotes() {
    let (k, v) = kv_line(r#"	"name"		"The \"Sequel\"""#).unwrap();
    assert_eq!(k, "name");
    assert_eq!(v, r#"The "Sequel""#);
    let (k, v) = kv_line(r#""path"  "D:\\SteamLibrary""#).unwrap();
    assert_eq!(k, "path");
    assert_eq!(v, r"D:\SteamLibrary");
    assert!(kv_line(r#""OnlyKey""#).is_none());
}

#[test]
fn acf_rejects_non_numeric_appid() {
    let bad = ACF.replace(r#""appid"		"570""#, r#""appid"		"570\" & calc""#);
    assert!(parse_acf(&bad).is_none());
}

#[test]
fn ids_in_odd_places() {
    assert_eq!(registry_app_id("Steam App 1x", "steam://uninstall/"), None);
    assert_eq!(registry_app_id("Steam App 9", "steam://uninstall/x"), Some("9".into()));
    assert_eq!(registry_app_id("x", "steam://uninstall/12ab"), Some("12".into()));
    assert!(kv_line(r#""a" "unclosed"#).is_none());
    assert_eq!(kv_line(r#"x"a"y"b"z"c""#), Some(("a".to_string(), "b".to_string())));
}

#[test]
fn the_first_name_and_the_last_size_count() {
    let acf = "\"appid\" \"1\"\n\"name\" \"First\"\n\"name\" \"Second\"\n\"installdir\" \"d\"\n\"SizeOnDisk\" \"5\"\n\"SizeOnDisk\" \"x\"\n";
    let game = parse_acf(acf).unwrap();
    assert_eq!(game.name, "First");
    assert_eq!(game.size_on_disk, 0);
}

#[test]
fn vdf_root_listed_in_different_case_not_scanned_twice() {
    let root = "/tmp/steam";
    let upper = "/TMP/STEAM";
    let vdf = format!("\"libraryfolders\"\n{{\n\t\"0\"\n\t{{\n\t\t\"path\"\t\t\"{}\"\n\t}}\n}}\n", upper);
    // a file system that tells no case apart
    let files = SteamFiles {
        is_dir: |p: &Vec<String>| {
            let p = path_from(p).to_lowercase();
            p == root || p == "/tmp/steam/steamapps"
        },
        read: |p: &Vec<String>| match path_from(p).to_lowercase().as_str() {
            "/tmp/steam/steamapps/libraryfolders.vdf" => Some(vdf.clone()),
            "/tmp/steam/steamapps/appmanifest_570.acf" => Some(ACF.to_string()),
            _ => None,
        },
        list: |p: &Vec<String>| match path_from(p).to_lowercase().as_str() {
            "/tmp/steam/steamapps" => {
                Some(vec!["common".to_string(), "appmanifest_570.acf".to_string()])
            }
            _ => None,
        },
    };
    let games = collect_from_root(root, &files);
    assert_eq!(games.len(), 1, "same library scanned twice");
}

#[test]
fn collect_from_fixture_root() {
    let files = SteamFiles {
        is_dir: |p: &Vec<String>| path_from(p) == "/tmp/steam",
        read: |p: &Vec<String>| match path_from(p).as_str() {
            "/tmp/steam/steamapps/appmanifest_570.acf" => Some(ACF.to_string()),
            "/tmp/steam/steamapps/appmanifest_broken.acf" => Some("junk".to_string()),
            _ => None,
        },
        list: |p: &Vec<String>| match path_from(p).as_str() {
            "/tmp/steam/steamapps" => Some(vec![
                "common".to_string(),
                "appmanifest_570.acf".to_string(),
                "appmanifest_broken.acf".to_string(),
            ]),
            _ => None,
        },
    };
    let games = collect_from_root("/tmp/steam", &files);
    assert_eq!(games.len(), 1);
    let g = &games[0];
    assert_eq!(g.name, "Dota 2");
    assert_eq!(g.size_bytes, Some(39_125_612_544)); // ~36.4 GB
    assert_eq!(g.uninstall_string, "steam://uninstall/570");
    assert!(g.location.ends_with(&format!(
        "steamapps{}common{}dota 2 beta",
        std::path::MAIN_SEPARATOR,
        std::path::MAIN_SEPARATOR
    )));
    assert_eq!(g.install_date.as_deref(), Some("2024-07-23"));
}

#[test]
fn the_root_of_steam() {
    let files = |there: &'static str| SteamFiles {
        is_dir: move |p: &Vec<String>| path_from(p) == there,
        read: |_: &Vec<String>| None,
        list: |_: &Vec<String>| None,
    };
    let lookup = |v: &str| match v {
        "DPAN_STEAM_DIR" => Some("/override".to_string()),
        "ProgramFiles(x86)" => Some("/pf".to_string()),
        _ => None,
    };
    assert_eq!(steam_root(&lookup, false, "/reg", &files("/override")), Some("/override".to_string()));
    assert_eq!(steam_root(&lookup, true, "/reg", &files("/reg")), Some("/reg".to_string()));
    assert_eq!(steam_root(&lookup, true, "/reg", &files("/pf/Steam")), Some("/pf/Steam".to_string()));
    assert_eq!(steam_root(&lookup, false, "/reg", &files("/reg")), None);
    assert_eq!(steam_root(&|_: &str| None, true, "", &files("")), None);
}
