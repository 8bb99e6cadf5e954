use std::cell::RefCell;
use std::collections::BTreeMap;

use dustpan::clean::{
    audit_line, elevated_removal, explain_elevation, log_path, removal_of, Action, AuditEntry,
    CleanStats, Cleaner, Failure, FailureKind, Hands, Listed, Removal,
};
use dustpan::safety::Safety;
use dustpan::scan::{entry_size, scan_sizes, Node, NodeKind};
use dustpan::targets::{Category, Mode, ResolvedTarget};

/// A file system in memory: paths with sizes of files; directories have none.
struct Disk {
    items: RefCell<BTreeMap<String, Option<u64>>>,
    links: Vec<String>,
}

impl Disk {
    fn new(items: &[(&str, Option<u64>)]) -> Disk {
        Disk {
            items: RefCell::new(items.iter().map(|(p, s)| (p.to_string(), *s)).collect()),
            links: Vec::new(),
        }
    }

    fn node(&self, path: &str) -> Option<Node> {
        let size = *self.items.borrow().get(path)?;
        let name = path.rsplit('/').next().unwrap_or("").to_string();
        if self.links.iter().any(|l| l == path) {
            return Some(Node {
                name,
                path: path.to_string(),
                kind: NodeKind::Link,
                len: size.unwrap_or(0),
                children: Vec::new(),
            });
        }
        Some(match size {
            Some(len) => Node {
                name,
                path: path.to_string(),
                kind: NodeKind::File,
                len,
                children: Vec::new(),
            },
            None => Node {
                name,
                path: path.to_string(),
                kind: NodeKind::Dir,
                len: 4096,
                children: self
                    .children(path)
                    .iter()
                    .filter_map(|child| self.node(child))
                    .collect(),
            },
        })
    }

    fn children(&self, path: &str) -> Vec<String> {
        let front = format!("{}/", path);
        self.items
            .borrow()
            .keys()
            .filter(|p| p.starts_with(&front) && !p[front.len()..].contains('/'))
            .cloned()
            .collect()
    }

    fn list(&self, path: &str) -> Option<Vec<Listed>> {
        if self.items.borrow().get(path) != Some(&None) {
            return None;
        }
        Some(self.children(path).into_iter().map(Listed::Path).collect())
    }

    fn remove(&self, path: &str) {
        let front = format!("{}/", path);
        self.items
            .borrow_mut()
            .retain(|p, _| p != path && !p.starts_with(&front));
    }

    fn there(&self, path: &str) -> bool {
        self.items.borrow().contains_key(path)
    }
}

const ROOT: &str = "/home/test/cache/root";

fn setup() -> Disk {
    Disk::new(&[
        ("/home/test/cache/root", None),
        ("/home/test/cache/root/sub", None),
        ("/home/test/cache/root/a.bin", Some(100)),
        ("/home/test/cache/root/sub/b.bin", Some(50)),
        ("/home/test/cache/root/keep.txt", Some(10)),
    ])
}

fn target(mode: Mode) -> ResolvedTarget {
    ResolvedTarget {
        category: Category::Dev,
        name: "test cache",
        path: ROOT.to_string(),
        mode,
    }
}

fn strings(list: &[&str]) -> Vec<String> {
    list.iter().map(|s| s.to_string()).collect()
}

fn clean(disk: &Disk, cleaner: &mut Cleaner, target: &ResolvedTarget) -> (CleanStats, Vec<String>) {
    let log: RefCell<Vec<String>> = RefCell::new(Vec::new());
    let hands = Hands {
        read: |p: &str| disk.node(p),
        remove: |p: &str| -> Result<(), Failure> {
            disk.remove(p);
            Ok(())
        },
        elevate: |_: &str| false,
        note: |e: &AuditEntry| log.borrow_mut().push(audit_line(0, e)),
    };
    let is_link = |p: &str| disk.links.iter().any(|l| l == p);
    let list = |p: &str| disk.list(p);
    let stats = cleaner.clean_target(target, &hands, &is_link, &list);
    let lines = log.borrow().clone();
    (stats, lines)
}

#[test]
fn dry_run_deletes_nothing() {
    let disk = setup();
    let safety = Safety::for_test(&strings(&[ROOT]), &vec![]);
    let mut cleaner = Cleaner::new(&safety, true, false);
    let (stats, log) = clean(&disk, &mut cleaner, &target(Mode::Contents));
    assert_eq!(stats.deleted, 3);
    assert_eq!(stats.freed, 160);
    assert!(disk.there("/home/test/cache/root/a.bin"));
    assert!(disk.there("/home/test/cache/root/sub/b.bin"));
    assert!(log.is_empty());
    assert!(cleaner.audit.is_empty());
}

#[test]
fn real_run_removes_children_keeps_dir_and_whitelist() {
    let disk = setup();
    let safety = Safety::for_test(
        &strings(&[ROOT]),
        &strings(&["/home/test/cache/root/keep.txt"]),
    );
    let mut cleaner = Cleaner::new(&safety, false, false);
    let (stats, log) = clean(&disk, &mut cleaner, &target(Mode::Contents));
    assert_eq!(stats.deleted, 2); // a.bin + sub/
    assert_eq!(stats.skipped, 1); // keep.txt
    assert_eq!(stats.freed, 150);
    assert!(disk.there(ROOT));
    assert!(disk.there("/home/test/cache/root/keep.txt"));
    assert!(!disk.there("/home/test/cache/root/a.bin"));
    assert!(!disk.there("/home/test/cache/root/sub"));
    assert_eq!(log.len(), 2);
    assert_eq!(cleaner.audit.len(), 2);
    assert!(cleaner.audit.iter().all(|e| e.action == Action::Removed));
}

#[test]
fn a_dry_run_counts_as_a_real_one() {
    let whitelist = strings(&["/home/test/cache/root/keep.txt"]);
    let safety = Safety::for_test(&strings(&[ROOT]), &whitelist);
    let disk = setup();
    let (dry, notes) = clean(&disk, &mut Cleaner::new(&safety, true, false), &target(Mode::Contents));
    assert!(notes.is_empty());
    let (real, notes) = clean(&disk, &mut Cleaner::new(&safety, false, false), &target(Mode::Contents));
    assert_eq!(real.failed, 0);
    assert_eq!(
        (dry.deleted, dry.freed, dry.skipped, dry.failed),
        (real.deleted, real.freed, real.skipped, 0)
    );
    assert_eq!(
        notes,
        vec![
            "1970-01-01T00:00:00Z\tREMOVED\t100\t/home/test/cache/root/a.bin\n",
            "1970-01-01T00:00:00Z\tREMOVED\t50\t/home/test/cache/root/sub\n",
        ]
    );
}

#[test]
fn every_attempt_is_read_tried_and_recorded() {
    let disk = setup();
    let whitelist = strings(&["/home/test/cache/root/keep.txt"]);
    let safety = Safety::for_test(&strings(&[ROOT]), &whitelist);
    let calls: RefCell<Vec<String>> = RefCell::new(Vec::new());
    let hands = Hands {
        read: |p: &str| {
            calls.borrow_mut().push(format!("read {p}"));
            disk.node(p)
        },
        remove: |p: &str| -> Result<(), Failure> {
            calls.borrow_mut().push(format!("remove {p}"));
            if p.ends_with("sub") {
                Err(Failure { kind: FailureKind::PermissionDenied, message: String::new() })
            } else {
                Ok(())
            }
        },
        elevate: |p: &str| {
            calls.borrow_mut().push(format!("elevate {p}"));
            false
        },
        note: |e: &AuditEntry| calls.borrow_mut().push(audit_line(0, e)),
    };
    let list = |p: &str| disk.list(p);
    let mut cleaner = Cleaner::new(&safety, false, true);
    cleaner.set_elevation_for_target(true);
    let stats = cleaner.clean_target(&target(Mode::Contents), &hands, &|_: &str| false, &list);
    assert_eq!((stats.deleted, stats.failed, stats.skipped), (1, 1, 1));
    assert_eq!(
        *calls.borrow(),
        vec![
            "read /home/test/cache/root/a.bin",
            "remove /home/test/cache/root/a.bin",
            "1970-01-01T00:00:00Z\tREMOVED\t100\t/home/test/cache/root/a.bin\n",
            "read /home/test/cache/root/sub",
            "remove /home/test/cache/root/sub",
            "elevate /home/test/cache/root/sub",
            "1970-01-01T00:00:00Z\tFAILED\t0\t/home/test/cache/root/sub\n",
        ]
    );
}

#[test]
fn a_whole_entry_is_removed() {
    let disk = setup();
    let safety = Safety::for_test(&strings(&["/home/test/cache"]), &vec![]);
    let mut cleaner = Cleaner::new(&safety, false, false);
    let (stats, _) = clean(&disk, &mut cleaner, &target(Mode::Entry));
    assert_eq!((stats.deleted, stats.freed), (1, 160));
    assert!(!disk.there(ROOT));
}

#[test]
fn a_linked_directory_is_not_followed() {
    let mut disk = setup();
    disk.links.push(ROOT.to_string());
    let safety = Safety::for_test(&strings(&[ROOT]), &vec![]);
    let mut cleaner = Cleaner::new(&safety, false, false);
    let (stats, _) = clean(&disk, &mut cleaner, &target(Mode::Contents));
    assert_eq!((stats.deleted, stats.failed, stats.skipped), (0, 0, 1));
    assert!(disk.there("/home/test/cache/root/a.bin"));
    assert_eq!(cleaner.verbose_lines.len(), 1);
}

#[test]
fn an_unreadable_directory_fails() {
    let disk = Disk::new(&[]);
    let safety = Safety::for_test(&strings(&[ROOT]), &vec![]);
    let mut cleaner = Cleaner::new(&safety, false, false);
    let (stats, _) = clean(&disk, &mut cleaner, &target(Mode::Contents));
    assert_eq!((stats.deleted, stats.failed), (0, 1));
    assert!(stats.failed_paths.is_empty());
    assert_eq!(
        stats.failure_reasons,
        vec!["/home/test/cache/root: cannot read directory"]
    );
}

#[test]
fn an_entry_that_cannot_be_read_fails_alone() {
    let disk = setup();
    let safety = Safety::for_test(&strings(&[ROOT]), &vec![]);
    let mut cleaner = Cleaner::new(&safety, false, false);
    let hands = Hands {
        read: |p: &str| disk.node(p),
        remove: |p: &str| -> Result<(), Failure> {
            disk.remove(p);
            Ok(())
        },
        elevate: |_: &str| false,
        note: |_: &AuditEntry| {},
    };
    let list = |_: &str| {
        Some(vec![
            Listed::Unreadable("broken entry".to_string()),
            Listed::Path("/home/test/cache/root/a.bin".to_string()),
        ])
    };
    let stats = cleaner.clean_target(&target(Mode::Contents), &hands, &|_: &str| false, &list);
    assert_eq!((stats.deleted, stats.failed, stats.skipped), (1, 1, 0));
    assert_eq!(stats.failure_reasons, vec!["/home/test/cache/root: broken entry"]);
    assert!(stats.failed_paths.is_empty());
}

#[test]
fn refused_paths_stay() {
    let disk = setup();
    let safety = Safety::for_test(&strings(&["/home/test/elsewhere"]), &vec![]);
    let mut cleaner = Cleaner::new(&safety, false, false);
    let (stats, log) = clean(&disk, &mut cleaner, &target(Mode::Contents));
    assert_eq!((stats.deleted, stats.skipped, stats.freed), (0, 3, 0));
    assert!(disk.there("/home/test/cache/root/a.bin"));
    assert!(log.is_empty());
}

#[test]
fn sizes_are_recursive_and_skip_symlinks() {
    let mut disk = Disk::new(&[
        ("/t/scan", None),
        ("/t/scan/sub", None),
        ("/t/scan/a.bin", Some(100)),
        ("/t/scan/sub/b.bin", Some(50)),
        ("/t/scan/link", Some(100)),
    ]);
    disk.links.push("/t/scan/link".to_string());
    assert_eq!(entry_size(&disk.node("/t/scan")), 150);
    assert_eq!(entry_size(&disk.node("/t/scan/a.bin")), 100);
    assert_eq!(entry_size(&disk.node("/t/scan/missing")), 0);
    // a link that is asked for itself is as long as the link
    assert_eq!(entry_size(&disk.node("/t/scan/link")), 100);
    assert_eq!(
        scan_sizes(&vec![disk.node("/t/scan/sub"), None, disk.node("/t/scan/a.bin")]),
        vec![50, 0, 100]
    );
}

#[test]
fn sizes_saturate() {
    let file = |len: u64| Node {
        name: String::new(),
        path: String::new(),
        kind: NodeKind::File,
        len,
        children: Vec::new(),
    };
    let dir = Node {
        name: String::new(),
        path: String::new(),
        kind: NodeKind::Dir,
        len: 0,
        children: vec![file(u64::MAX), file(2)],
    };
    assert_eq!(entry_size(&Some(dir)), u64::MAX);
}

fn failing(kind: FailureKind, windows: bool, allowed: bool, granted: bool) -> (CleanStats, Vec<String>, bool) {
    let disk = setup();
    let asked = RefCell::new(false);
    let safety = Safety::for_test(&strings(&[ROOT]), &vec![]);
    let mut cleaner = Cleaner::new(&safety, false, windows);
    cleaner.set_elevation_for_target(allowed);
    let hands = Hands {
        read: |p: &str| disk.node(p),
        remove: |_: &str| -> Result<(), Failure> {
            Err(Failure { kind, message: "no luck".to_string() })
        },
        elevate: |_: &str| {
            *asked.borrow_mut() = true;
            granted
        },
        note: |_: &AuditEntry| {},
    };
    let stats = cleaner.remove_one("/home/test/cache/root/a.bin", &hands);
    let actions = cleaner.audit.iter().map(|e| audit_line(0, e)).collect();
    let was_asked = *asked.borrow();
    (stats, actions, was_asked)
}

#[test]
fn failures_are_told() {
    let (stats, log, asked) = failing(FailureKind::Other, false, true, true);
    assert_eq!((stats.deleted, stats.failed), (0, 1));
    assert_eq!(stats.failed_paths, vec!["/home/test/cache/root/a.bin"]);
    assert_eq!(stats.failure_reasons.len(), 1);
    assert_eq!(stats.failure_reasons[0], "/home/test/cache/root/a.bin: no luck");
    assert!(!asked);
    assert_eq!(log.len(), 1);
    assert!(log[0].contains("FAILED"));
}

#[test]
fn failures_have_their_reasons() {
    let reason = |kind: FailureKind| failing(kind, false, false, false).0.failure_reasons[0].clone();
    assert_eq!(
        reason(FailureKind::PermissionDenied),
        "/home/test/cache/root/a.bin: permission denied"
    );
    assert_eq!(reason(FailureKind::NotFound), "/home/test/cache/root/a.bin: file disappeared");
    assert_eq!(
        reason(FailureKind::IsADirectory),
        "/home/test/cache/root/a.bin: directory is in use"
    );
    assert_eq!(reason(FailureKind::Other), "/home/test/cache/root/a.bin: no luck");
}

#[test]
fn rights_are_asked_for_where_allowed_alone() {
    let denied = FailureKind::PermissionDenied;
    assert!(!failing(denied, false, true, true).2);
    assert!(!failing(denied, true, false, true).2);
    let (stats, _, asked) = failing(denied, true, true, true);
    assert!(asked);
    assert_eq!((stats.deleted, stats.failed, stats.freed), (1, 0, 100));
    let (stats, _, asked) = failing(denied, true, true, false);
    assert!(asked);
    assert_eq!((stats.deleted, stats.failed), (0, 1));
}

#[test]
fn a_second_try_replaces_the_failures() {
    let mut stats = CleanStats::default();
    stats.freed = 10;
    stats.deleted = 1;
    stats.failed = 2;
    stats.failed_paths = strings(&["/a", "/b"]);
    stats.failure_reasons = strings(&["/a: x", "/b: y"]);
    let mut retry = CleanStats::default();
    retry.freed = 5;
    retry.deleted = 1;
    retry.failed = 1;
    retry.failed_paths = strings(&["/b"]);
    retry.failure_reasons = strings(&["/b: z"]);
    stats.take_retry(retry);
    assert_eq!((stats.freed, stats.deleted, stats.failed, stats.skipped), (15, 2, 1, 0));
    assert_eq!(stats.failed_paths, vec!["/b"]);
    assert_eq!(stats.failure_reasons, vec!["/b: z"]);
}

#[test]
fn statistics_merge() {
    let mut a = CleanStats::default();
    a.freed = u64::MAX;
    a.skipped = 1;
    a.failed_paths = strings(&["/a"]);
    let mut b = CleanStats::default();
    b.freed = 1;
    b.deleted = 4;
    b.failed_paths = strings(&["/b"]);
    a.merge(&b);
    assert_eq!((a.freed, a.deleted, a.skipped), (u64::MAX, 4, 1));
    assert_eq!(a.failed_paths, vec!["/a", "/b"]);
}

#[test]
fn what_failed_is_tried_again() {
    let disk = setup();
    let safety = Safety::for_test(&strings(&[ROOT]), &vec![]);
    let mut cleaner = Cleaner::new(&safety, false, false);
    let hands = Hands {
        read: |p: &str| disk.node(p),
        remove: |p: &str| -> Result<(), Failure> {
            if p.ends_with("sub") {
                return Err(Failure { kind: FailureKind::Other, message: "busy".to_string() });
            }
            disk.remove(p);
            Ok(())
        },
        elevate: |_: &str| false,
        note: |_: &AuditEntry| {},
    };
    let again = strings(&["/home/test/cache/root/a.bin", "/home/test/cache/root/sub"]);
    let stats = cleaner.retry_failed(&again, &hands);
    assert_eq!((stats.deleted, stats.failed, stats.freed), (1, 1, 100));
    assert_eq!(stats.failed_paths, vec!["/home/test/cache/root/sub"]);
    assert!(cleaner.remove_path("/home/test/cache/root/keep.txt", &hands));
    assert!(!cleaner.remove_path("/home/test/cache/root/sub", &hands));
    assert!(!cleaner.remove_path(ROOT, &hands));
}

#[test]
fn audit_lines() {
    let entry = AuditEntry { action: Action::Removed, size: 42, path: "/a b".to_string() };
    assert_eq!(audit_line(0, &entry), "1970-01-01T00:00:00Z\tREMOVED\t42\t/a b\n");
    let entry = AuditEntry { action: Action::Failed, size: 0, path: "/x".to_string() };
    assert_eq!(audit_line(951782400, &entry), "2000-02-29T00:00:00Z\tFAILED\t0\t/x\n");
}

#[test]
fn the_log_lies_below_the_local_data() {
    let local = |v: &str| if v == "LOCALAPPDATA" { Some("/data".to_string()) } else { None };
    assert_eq!(log_path(&local), Some("/data/dustpan/operations.log".to_string()));
    let home = |v: &str| if v == "HOME" { Some("/home/u".to_string()) } else { None };
    assert_eq!(
        log_path(&home),
        Some("/home/u/.local/share/dustpan/operations.log".to_string())
    );
    assert_eq!(log_path(&|_: &str| None), None);
}

#[test]
fn what_removes_what() {
    assert_eq!(removal_of(true, true), Removal::Link);
    assert_eq!(removal_of(true, false), Removal::Link);
    assert_eq!(removal_of(false, true), Removal::Tree);
    assert_eq!(removal_of(false, false), Removal::File);
}

fn decode(text: &str) -> Vec<u8> {
    let digits = "ABCDEFGHIJKLMNOPQRSTUVWXYZabcdefghijklmnopqrstuvwxyz0123456789+/";
    let mut bits: u32 = 0;
    let mut count = 0;
    let mut out: Vec<u8> = Vec::new();
    for c in text.chars().filter(|c| *c != '=') {
        bits = (bits << 6) | digits.find(c).unwrap() as u32;
        count += 6;
        if count >= 8 {
            count -= 8;
            out.push((bits >> count) as u8);
            bits &= (1 << count) - 1;
        }
    }
    out
}

#[test]
fn the_elevated_command_names_the_path() {
    let path = "C:\\Users\\O'Neil\\上传";
    let script = elevated_removal(path);
    let encoded: &str = script
        .split(|c: char| c == '\'' || c == '"' || c == ' ' || c == ',')
        .max_by_key(|piece| piece.len())
        .unwrap();
    let units: Vec<u16> = decode(encoded)
        .chunks(2)
        .map(|pair| u16::from_le_bytes([pair[0], pair[1]]))
        .collect();
    assert_eq!(
        String::from_utf16(&units).unwrap(),
        "Remove-Item -LiteralPath 'C:\\Users\\O''Neil\\上传' -Recurse -Force -ErrorAction Stop"
    );
    assert!(explain_elevation().contains("administrator"));
}
