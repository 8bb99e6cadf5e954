use std::time::{SystemTime, UNIX_EPOCH};

use dustpan::analyze::{
    browse_viewport, default_root, draw, file_info, list_entries, print_flat, print_json,
    root_error, scan_tree, AnalyzeOptions, Browse, Entry, Explorer, ScanResult, Seen,
};
use dustpan::calendar::{civil_from_days, day_from_unix, iso_from_unix};
use dustpan::scan::{Node, NodeKind};
use dustpan::term::Key;
use dustpan::ui::Style;

fn file(path: &str, len: u64) -> Node {
    Node {
        name: path.rsplit('/').next().unwrap().to_string(),
        path: path.to_string(),
        kind: NodeKind::File,
        len,
        children: Vec::new(),
    }
}

fn dir(path: &str, children: Vec<Node>) -> Node {
    Node {
        name: path.rsplit('/').next().unwrap().to_string(),
        path: path.to_string(),
        kind: NodeKind::Dir,
        len: 4096,
        children,
    }
}

fn setup() -> Node {
    dir(
        "/r",
        vec![
            dir(
                "/r/big",
                vec![
                    file("/r/big/a.bin", 300),
                    dir("/r/big/nested", vec![file("/r/big/nested/b.bin", 200)]),
                ],
            ),
            dir("/r/small", vec![file("/r/small/c.bin", 50)]),
            file("/r/top.txt", 10),
        ],
    )
}

fn seen(node: &Node) -> Vec<Seen> {
    node.children
        .iter()
        .map(|c| Seen {
            name: c.name.clone(),
            path: c.path.clone(),
            kind: c.kind,
            len: c.len,
        })
        .collect()
}

#[test]
fn scan_indexes_every_directory() {
    let scan = scan_tree(&setup());
    assert_eq!(scan.size_of("/r"), Some(560));
    assert_eq!(scan.size_of("/r/big"), Some(500));
    assert_eq!(scan.size_of("/r/big/nested"), Some(200));
    assert_eq!(scan.size_of("/r/small"), Some(50));
    assert_eq!(scan.files, 4);
    assert_eq!(scan.dirs, 3);
    assert_eq!(scan.size_of("/r/top.txt"), None);
}

#[test]
fn entries_sorted_by_size_desc() {
    let root = setup();
    let scan = scan_tree(&root);
    let entries = list_entries(&seen(&root), &scan, &|_: &str| None);
    let names: Vec<&str> = entries.iter().map(|e| e.name.as_str()).collect();
    assert_eq!(names, vec!["big", "small", "top.txt"]);
    assert!(entries[0].is_dir && !entries[2].is_dir);
}

#[test]
fn links_are_left_out_and_new_directories_are_read() {
    let mut root = setup();
    let scan = scan_tree(&root);
    let mut link = file("/r/link", 999);
    link.kind = NodeKind::Link;
    root.children.push(link);
    root.children.push(dir("/r/new", vec![]));
    let read = |p: &str| if p == "/r/new" { Some(file("/r/new", 70)) } else { None };
    let entries = list_entries(&seen(&root), &scan, &read);
    let names: Vec<&str> = entries.iter().map(|e| e.name.as_str()).collect();
    assert_eq!(names, vec!["big", "new", "small", "top.txt"]);
    assert_eq!(entries[1].size, 70);
    assert_eq!(scan_tree(&root).files, 4);
}

fn rows(list: &[(&str, u64, bool)]) -> Vec<Entry> {
    list.iter()
        .map(|(name, size, is_dir)| Entry {
            name: name.to_string(),
            path: format!("/r/{}", name),
            size: *size,
            is_dir: *is_dir,
        })
        .collect()
}

#[test]
fn walking_through_directories() {
    let mut e = Explorer::new("/r", rows(&[("big", 500, true), ("small", 50, true), ("f", 1, false)]));
    assert_eq!(e.press(3, Key::Left), Browse::Stay);
    assert_eq!(e.message, "already at the scanned root");
    assert_eq!(e.press(3, Key::Down), Browse::Stay);
    assert_eq!((e.cursor, e.message.as_str()), (1, ""));
    assert_eq!(e.press(3, Key::Enter), Browse::List);
    assert_eq!(e.cur, "/r/small");
    e.arrive(rows(&[]));
    assert_eq!((e.cursor, e.offset), (0, 0));
    assert_eq!(e.press(3, Key::Down), Browse::Stay);
    assert_eq!(e.cursor, 0);
    assert_eq!(e.press(3, Key::Enter), Browse::Stay);
    assert_eq!(e.press(3, Key::Left), Browse::List);
    assert_eq!(e.cur, "/r");
    e.arrive(rows(&[("big", 500, true), ("small", 50, true), ("f", 1, false)]));
    assert_eq!(e.cursor, 1); // back on the directory that was left
    assert_eq!(e.press(3, Key::Bottom), Browse::Stay);
    assert_eq!(e.press(3, Key::Right), Browse::Info);
    e.take_info(Some(0));
    assert_eq!(e.message, "f — 1 B, modified 1970-01-01T00:00:00Z");
    assert_eq!(e.press(3, Key::PageUp), Browse::Stay);
    assert_eq!(e.cursor, 0);
    assert_eq!(e.press(2, Key::PageDown), Browse::Stay);
    assert_eq!(e.cursor, 2);
    assert_eq!(e.press(3, Key::Top), Browse::Stay);
    assert_eq!(e.press(3, Key::Number(3)), Browse::Stay);
    assert_eq!(e.cursor, 0);
    assert_eq!(e.press(3, Key::Quit), Browse::Quit);
}

#[test]
fn the_window_follows_the_cursor() {
    let many: Vec<(String, u64, bool)> = (0..20).map(|i| (format!("e{}", i), 1, false)).collect();
    let many: Vec<(&str, u64, bool)> = many.iter().map(|(n, s, d)| (n.as_str(), *s, *d)).collect();
    let mut e = Explorer::new("/r", rows(&many));
    e.press(5, Key::Bottom);
    e.bring_into_view(5);
    assert_eq!((e.cursor, e.offset), (19, 15));
    e.press(5, Key::Top);
    e.bring_into_view(5);
    assert_eq!((e.cursor, e.offset), (0, 0));
    assert_eq!(browse_viewport(24, 40), 19);
    assert_eq!(browse_viewport(100, 40), 40);
    assert_eq!(browse_viewport(2, 40), 3);
    assert_eq!(browse_viewport(100, 0), 3);
}

fn bar(size: u64, max: u64) -> usize {
    ((size as f64 / max as f64) * 14.0).round() as usize
}

fn index() -> ScanResult {
    scan_tree(&setup())
}

#[test]
fn the_explorer_screen() {
    let plain = Style { on: false };
    let e = Explorer::new("/r", rows(&[("big", 500, true), ("top.txt", 10, false), ("x", 1, false)]));
    assert_eq!(
        draw(&e, &index(), "0.1", &plain, 2, &bar),
        format!(
            "\u{1b}[H\u{1b}[2JAnalyze  /r  560 B\r\n4 files · 3 dirs · scanned in 0.1s · j/k move · l open · h up · g/G · q quit\r\n\r\n\
             \u{1b}[7m❯ ▸ big{}      500 B  ██████████████\u{1b}[0m\r\n\
             \x20   top.txt{}       10 B  \r\n  … 2/3 shown\r\n",
            " ".repeat(37),
            " ".repeat(33)
        )
    );
    let mut empty = Explorer::new("/r/new", rows(&[]));
    empty.message = "hm".to_string();
    let text = draw(&empty, &index(), "0.1", &plain, 3, &bar);
    assert!(text.starts_with("\u{1b}[H\u{1b}[2JAnalyze  /r/new  0 B\r\n"));
    assert!(text.ends_with("  (empty directory)\r\n\r\nhm\r\n"));
}

#[test]
fn the_flat_listing() {
    let plain = Style { on: false };
    let list = rows(&[("big", 500, true), ("top.txt", 10, false)]);
    assert_eq!(
        print_flat("/r", &list, &index(), "0.1", &plain, 1, &bar),
        format!(
            "Analyze  /r\ntotal 560 B · 4 files · 3 dirs · scanned in 0.1s\n\n   1  ▸ big{}      500 B  ██████████████\n  ... 1 more entries hidden (--top 1)\n",
            " ".repeat(37)
        )
    );
    assert!(print_flat("/r", &rows(&[]), &index(), "0.1", &plain, 1, &bar).ends_with("\n\n  (empty directory)\n"));
}

#[test]
fn the_listing_as_json() {
    let list = rows(&[("big \"x\"", 500, true), ("top.txt", 10, false)]);
    assert_eq!(
        print_json("/r", &list, &index()),
        "{\"path\":\"/r\",\"total\":560,\"files\":4,\"dirs\":3,\"entries\":[{\"name\":\"big \\\"x\\\"\",\"type\":\"dir\",\"size\":500},{\"name\":\"top.txt\",\"type\":\"file\",\"size\":10}]}"
    );
}

#[test]
fn where_exploring_starts() {
    let lookup = |v: &str| if v == "HOME" { Some("/h".to_string()) } else { None };
    assert_eq!(default_root(&None, &lookup), Some("/h".to_string()));
    assert_eq!(default_root(&Some("/x".to_string()), &lookup), Some("/x".to_string()));
    assert_eq!(default_root(&None, &|_: &str| None), None);
    assert_eq!(
        root_error(&None, false, false).as_deref(),
        Some("error: no path given and no home directory found")
    );
    let path = Some("/x".to_string());
    assert_eq!(
        root_error(&path, false, false).as_deref(),
        Some("error: path does not exist: /x")
    );
    assert_eq!(root_error(&path, true, false).as_deref(), Some("error: not a directory: /x"));
    assert_eq!(root_error(&path, true, true), None);
    assert_eq!(AnalyzeOptions::default().top, 40);
    let unknown = Entry { name: "f".into(), path: "/f".into(), size: 2048, is_dir: false };
    assert_eq!(file_info(&unknown, None), "f — 2.0 KB, modified ?");
}

#[test]
fn timestamp_is_sane() {
    let secs = SystemTime::now()
        .duration_since(UNIX_EPOCH)
        .unwrap_or_default()
        .as_secs();
    let ts = iso_from_unix(secs);
    assert!(ts.starts_with("20"), "unexpected timestamp: {ts}");
    assert_eq!(ts.len(), 20);
}

/// The day by the well-known computation on years that begin in March.
fn by_eras(z: i64) -> (i64, u32, u32) {
    let z = z + 719468;
    let era = if z >= 0 { z } else { z - 146096 } / 146097;
    let doe = (z - era * 146097) as u64;
    let yoe = (doe - doe / 1460 + doe / 36524 - doe / 146096) / 365;
    let y = yoe as i64 + era * 400;
    let doy = doe - (365 * yoe + yoe / 4 - yoe / 100);
    let mp = (5 * doy + 2) / 153;
    let d = (doy - (153 * mp + 2) / 5 + 1) as u32;
    let m = if mp < 10 { mp + 3 } else { mp - 9 } as u32;
    (if m <= 2 { y + 1 } else { y }, m, d)
}

#[test]
fn days_agree_with_the_computation_by_eras() {
    for z in -1_000_000..1_000_000 {
        assert_eq!(civil_from_days(z), by_eras(z), "day {}", z);
    }
}

#[test]
fn known_days() {
    assert_eq!(civil_from_days(0), (1970, 1, 1));
    assert_eq!(civil_from_days(-1), (1969, 12, 31));
    assert_eq!(civil_from_days(i64::MIN), by_eras(i64::MIN));
    assert_eq!(civil_from_days(i64::MIN + 1), by_eras(i64::MIN + 1));
    assert_eq!(civil_from_days(11016), (2000, 2, 29));
    assert_eq!(iso_from_unix(1721718000), "2024-07-23T07:00:00Z");
    assert_eq!(day_from_unix(1721718000), "2024-07-23");
    assert_eq!(iso_from_unix(951868799), "2000-02-29T23:59:59Z");
    assert_eq!(iso_from_unix(253402300800), "10000-01-01T00:00:00Z");
}
