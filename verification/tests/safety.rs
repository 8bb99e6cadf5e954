use dustpan::fsutil::{is_link_or_reparse, is_reparse_point};
use dustpan::paths::{
    is_same_path, path_below, path_from, path_starts_with, PartKind, PathParts,
};
use dustpan::safety::{parse_whitelist, read_paths, whitelist_path, Safety};

const BASE: &str = "/home/test/AppData/Local";

fn below(names: &[&str]) -> String {
    path_below(BASE, names)
}

fn strings(list: &[&str]) -> Vec<String> {
    list.iter().map(|s| s.to_string()).collect()
}

#[test]
fn rejects_unsafe_paths() {
    let s = Safety::for_test(&strings(&[BASE]), &vec![]);
    assert!(s.check("relative/path").is_err());
    assert!(s.check(&below(&["..", "x"])).is_err());
    // The allowed base itself is not deletable.
    assert!(s.check(BASE).is_err());
    // Outside any allowed base.
    assert!(s.check("/other/place/file").is_err());
    assert!(s.check("C:\\Other\\place\\file").is_err());
    // Inside the base is fine.
    assert!(s.check(&below(&["pip", "cache", "x"])).is_ok());
}

#[test]
fn fail_closed_without_bases() {
    let s = Safety::for_test(&vec![], &vec![]);
    assert!(s.check(&below(&["pip", "cache"])).is_err());
}

#[test]
fn case_insensitive_containment() {
    let s = Safety::for_test(&strings(&[BASE]), &vec![]);
    let mixed = below(&["PIP", "Cache", "wheel"]);
    assert!(s.check(&mixed).is_ok());
    assert!(s.check("/HOME/Test/appdata/LOCAL/pip").is_ok());
}

#[test]
fn whitelist_glob_and_subtree() {
    let wl = vec![below(&["keepme"]), "*important*".to_string()];
    let s = Safety::for_test(&strings(&[BASE]), &wl);
    assert!(s.is_whitelisted(&below(&["keepme"])));
    assert!(s.is_whitelisted(&below(&["keepme", "sub", "f"])));
    assert!(s.is_whitelisted(&below(&["very-Important-data"])));
    assert!(!s.is_whitelisted(&below(&["junk"])));
    assert!(!s.is_whitelisted(&below(&["keepme-not"])));
}

#[test]
fn each_refusal_has_its_reason() {
    let s = Safety::new(
        read_paths(&strings(&["/home/test/AppData/Local/saved", "/home/test"])),
        read_paths(&strings(&[BASE, "/home"])),
        read_paths(&strings(&["/home/test/AppData/Local/Programs"])),
        read_paths(&vec![]),
    );
    assert_eq!(s.check("relative"), Err("not an absolute path"));
    assert_eq!(s.check(""), Err("not an absolute path"));
    assert_eq!(s.check("/a/b/../c"), Err("contains '..'"));
    assert_eq!(s.check("/home"), Err("path too shallow"));
    assert_eq!(s.check("/"), Err("path too shallow"));
    assert_eq!(s.check("/home/TEST/"), Err("protected root"));
    assert_eq!(s.check("/home/test/appdata/local/saved"), Err("protected root"));
    assert_eq!(s.check(&below(&["saved", "x"])), Ok(()));
    assert_eq!(
        s.check(&below(&["Programs"])),
        Err("inside a protected system tree")
    );
    assert_eq!(
        s.check(&below(&["programs", "tool", "x.exe"])),
        Err("inside a protected system tree")
    );
    assert_eq!(s.check("/var/tmp/x"), Err("outside allowed base directories"));
    assert_eq!(s.check("/home/./test//other"), Ok(()));
}

fn environment(v: &str) -> Option<String> {
    match v {
        "USERPROFILE" => Some("/users/me".to_string()),
        "LOCALAPPDATA" => Some("/users/me/local".to_string()),
        "SystemRoot" => Some("/windows/root".to_string()),
        "ProgramFiles" => Some("/users/me/programs".to_string()),
        _ => None,
    }
}

#[test]
fn the_environment_decides() {
    let s = Safety::load(&environment, &strings(&["/users/me/local/mine"]));
    assert_eq!(s.check("/users/me"), Err("protected root"));
    assert_eq!(s.check("/users/me/local"), Err("protected root"));
    assert_eq!(s.check("/windows/root"), Err("protected root"));
    assert_eq!(s.check("/windows/root/Temp/x"), Ok(()));
    assert_eq!(s.check("/windows/root/Temp"), Err("outside allowed base directories"));
    assert_eq!(
        s.check("/windows/root/system32/x"),
        Err("inside a protected system tree")
    );
    assert_eq!(
        s.check("/windows/root/WinSxS"),
        Err("inside a protected system tree")
    );
    assert_eq!(
        s.check("/users/me/programs/app"),
        Err("inside a protected system tree")
    );
    assert_eq!(s.check("/users/me/local/cache"), Ok(()));
    assert!(s.is_whitelisted("/users/me/local/MINE/x"));
    let nothing = Safety::load(&|_: &str| None, &vec![]);
    assert!(nothing.check("/users/me/local/cache").is_err());
}

#[test]
fn whitelist_files() {
    let text = "# comment\n\n  ~/keep \r\n%LOCALAPPDATA%\\x*\n%MISSING%\\y\n/plain\n";
    assert_eq!(
        parse_whitelist(text, &environment),
        vec!["/users/me/keep", "/users/me/local\\x*", "/plain"]
    );
    assert_eq!(parse_whitelist("~x", &|_: &str| None), Vec::<String>::new());
    assert_eq!(
        whitelist_path(&|v: &str| if v == "APPDATA" { Some("/roam".to_string()) } else { None }),
        Some("/roam/dustpan/whitelist.txt".to_string())
    );
    assert_eq!(
        whitelist_path(&|v: &str| if v == "HOME" { Some("/h".to_string()) } else { None }),
        Some("/h/.config/dustpan/whitelist.txt".to_string())
    );
    assert_eq!(whitelist_path(&|_: &str| None), None);
}

#[test]
fn paths_fall_into_parts() {
    let p = PathParts::parse("/a/./b/../C");
    assert!(p.absolute);
    assert_eq!(p.text, "/a/./b/../C");
    let kinds: Vec<PartKind> = p.parts.iter().map(|c| c.kind).collect();
    assert_eq!(
        kinds,
        vec![
            PartKind::RootDir,
            PartKind::Normal,
            PartKind::Normal,
            PartKind::ParentDir,
            PartKind::Normal
        ]
    );
    let texts: Vec<&str> = p.parts.iter().map(|c| c.text.as_str()).collect();
    assert_eq!(texts, vec!["/", "a", "b", "..", "C"]);
    assert!(!PathParts::parse("a/b").absolute);
    assert_eq!(PathParts::parse("./a").parts[0].kind, PartKind::CurDir);
    assert_eq!(PathParts::parse("").parts.len(), 0);
}

#[test]
fn paths_compare_by_their_parts() {
    let p = |s: &str| PathParts::parse(s);
    assert!(is_same_path(&p("/A/b/"), &p("/a//B")));
    assert!(!is_same_path(&p("/a/b"), &p("/a/bc")));
    assert!(path_starts_with(&p("/a/b/c"), &p("/A/B")));
    assert!(path_starts_with(&p("/a/b"), &p("/a/b")));
    assert!(!path_starts_with(&p("/a/bc"), &p("/a/b")));
    assert!(!path_starts_with(&p("/a"), &p("/a/b")));
    assert!(!path_starts_with(&p("/a"), &p("")));
}

#[test]
fn paths_join() {
    assert_eq!(path_from(&strings(&["/a", "b", "c"])), "/a/b/c");
    assert_eq!(path_from(&strings(&["/a", "/b"])), "/b");
    assert_eq!(path_below("/a", &[]), "/a");
}

#[test]
fn links_and_reparse_points() {
    assert!(is_reparse_point(true, 0x400));
    assert!(is_reparse_point(true, 0x410));
    assert!(!is_reparse_point(true, 0x10));
    assert!(!is_reparse_point(false, 0x400));
    assert!(is_link_or_reparse(true, false, 0));
    assert!(is_link_or_reparse(false, true, 0x400));
    assert!(!is_link_or_reparse(false, true, 0x80));
}
