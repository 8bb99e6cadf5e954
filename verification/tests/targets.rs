use std::collections::HashMap;

use dustpan::paths::path_from;
use dustpan::plan::{
    cache_owners, running_among, running_cache_apps, CleanPlan, PlannedTarget,
};
use dustpan::scan::{Node, NodeKind};
use dustpan::targets::{
    expand_template, expand_vars, resolve_targets, targets, Category, DirItem, Mode,
    ResolvedTarget, Risk, TargetMetadata,
};

#[test]
fn env_expansion() {
    let vars: HashMap<&str, &str> = [("LOCALAPPDATA", "/home/u/AppData/Local")].into();
    let lookup = |v: &str| vars.get(v).map(|s| s.to_string());
    assert_eq!(
        expand_vars("%LOCALAPPDATA%\\pip\\cache", &lookup),
        Some("/home/u/AppData/Local\\pip\\cache".to_string())
    );
    assert_eq!(expand_vars("%MISSING%\\x", &lookup), None);
}

#[test]
fn variables_in_every_place() {
    let lookup = |v: &str| Some(format!("<{}>", v));
    assert_eq!(expand_vars("", &lookup), Some(String::new()));
    assert_eq!(expand_vars("a%X%b%Y%", &lookup), Some("a<X>b<Y>".to_string()));
    assert_eq!(expand_vars("%%", &lookup), Some("<>".to_string()));
    assert_eq!(expand_vars("50% off", &lookup), None);
}

/// Directories with the names in them.
fn tree(dir: &str) -> Option<Vec<&'static str>> {
    match dir {
        "/t/root/User Data" => Some(vec!["Default", "Profile 1", "Profile 2", "Linked"]),
        "/t/root/User Data/Default" | "/t/root/User Data/Profile 1" => Some(vec!["Cache"]),
        "/t/root/User Data/Linked" => Some(vec!["Cache"]),
        "/t/root/User Data/Profile 2" => Some(vec![]),
        "/t/root/Explorer" => Some(vec!["thumbcache_32.db", "iconcache.db", "THUMBCACHE_x.db"]),
        _ => None,
    }
}

fn list(pieces: &Vec<String>) -> Option<Vec<DirItem>> {
    let names = tree(&path_from(pieces))?;
    Some(
        names
            .iter()
            .map(|n| DirItem { name: n.to_string(), link: *n == "Linked" })
            .collect(),
    )
}

fn there(path: &str) -> bool {
    if tree(path).is_some() {
        return true;
    }
    match path.rsplit_once('/') {
        Some((dir, name)) => tree(dir).is_some_and(|names| names.contains(&name)),
        None => false,
    }
}

fn root(v: &str) -> Option<String> {
    if v == "ROOT" {
        Some("/t/root".to_string())
    } else {
        None
    }
}

#[test]
fn template_wildcard_expansion() {
    let mut got: Vec<String> = expand_template("%ROOT%\\User Data\\*\\Cache", false, &root, &list)
        .iter()
        .map(path_from)
        .collect();
    got.sort();
    // Non-wildcard tails are joined without existence checks; the caller
    // filters, so "Profile 2\Cache" may appear here only if it exists.
    let got_names: Vec<String> = got
        .iter()
        .filter(|p| there(p))
        .map(|p| p.rsplit('/').nth(1).unwrap().to_string())
        .collect();
    assert_eq!(got_names, vec!["Default", "Profile 1"]);
}

#[test]
fn templates_without_wildcards_pass_through() {
    let got = expand_template("%ROOT%\\nothing\\here", false, &root, &list);
    assert_eq!(got.len(), 1);
    assert_eq!(path_from(&got[0]), "/t/root/nothing/here");
    assert!(expand_template("%NONE%\\x", false, &root, &list).is_empty());
    assert!(expand_template("%ROOT%\\missing\\*\\x", false, &root, &list).is_empty());
}

#[test]
fn a_link_at_the_end_is_kept_and_one_in_the_middle_is_not_followed() {
    let end: Vec<String> = expand_template("%ROOT%\\User Data\\L*", false, &root, &list)
        .iter()
        .map(path_from)
        .collect();
    assert_eq!(end, vec!["/t/root/User Data/Linked"]);
    let files: Vec<String> = expand_template("%ROOT%\\Explorer\\thumbcache_*.db", false, &root, &list)
        .iter()
        .map(path_from)
        .collect();
    assert_eq!(
        files,
        vec!["/t/root/Explorer/thumbcache_32.db", "/t/root/Explorer/THUMBCACHE_x.db"]
    );
}

#[test]
fn category_words() {
    for c in Category::ALL {
        assert_eq!(Category::parse(c.key()), Some(c));
        assert_eq!(Category::parse(&c.key().to_uppercase()), Some(c));
        assert!(!c.label().is_empty());
    }
    assert_eq!(Category::parse("nonsense"), None);
    assert_eq!(Category::parse(""), None);
}

#[test]
fn the_table_is_whole() {
    let all = targets();
    assert_eq!(all.len(), dustpan::targets::TARGETS.len());
    for c in Category::ALL {
        assert!(all.iter().any(|t| t.category == c));
    }
    assert!(all.iter().all(|t| t.template.starts_with('%')));
}

/// A machine on which every variable is set and every plain path exists.
fn resolve_all(only: Option<&[Category]>) -> Vec<ResolvedTarget> {
    let lookup = |v: &str| Some(format!("/v/{}", v));
    let nothing = |_: &Vec<String>| None;
    let probe = |pieces: &Vec<String>| Some(path_from(pieces));
    resolve_targets(only, false, &lookup, &nothing, &probe)
}

#[test]
fn resolving_keeps_paths_apart_and_categories_in() {
    let all = resolve_all(None);
    assert!(!all.is_empty());
    for i in 0..all.len() {
        for j in 0..i {
            assert!(all[i].path.to_lowercase() != all[j].path.to_lowercase());
        }
    }
    let dev = resolve_all(Some(&[Category::Dev]));
    assert!(!dev.is_empty());
    assert!(dev.iter().all(|t| t.category == Category::Dev));
    assert!(resolve_all(Some(&[])).is_empty());
}

#[test]
fn what_is_not_there_is_left_out() {
    let lookup = |v: &str| Some(format!("/v/{}", v));
    let nothing = |_: &Vec<String>| None;
    let absent = |_: &Vec<String>| None;
    assert!(resolve_targets(None, false, &lookup, &nothing, &absent).is_empty());
}

#[test]
fn smart_plan_excludes_expensive_and_system_targets() {
    let lookup = |v: &str| Some(format!("/v/{}", v));
    let nothing = |_: &Vec<String>| None;
    let probe = |pieces: &Vec<String>| Some(path_from(pieces));
    let plan = CleanPlan::discover(None, false, &lookup, &nothing, &probe);
    assert!(!plan.targets.is_empty());
    assert!(plan
        .targets
        .iter()
        .all(|target| target.metadata.risk == Risk::Low));
    assert!(plan.targets.iter().all(|target| !target.metadata.expensive));
    assert!(!plan.optional.is_empty());
    assert_eq!(
        plan.targets.len() + plan.optional.len(),
        plan.all_resolved().len()
    );
    assert_eq!(plan.resolved().len(), plan.targets.len());
}

#[test]
fn metadata_identifies_process_and_permission_requirements() {
    let target = ResolvedTarget {
        category: Category::Browser,
        name: "Chrome cache",
        path: "/tmp/chrome".to_string(),
        mode: Mode::Contents,
    };
    assert_eq!(target.metadata().associated_app, Some("chrome.exe"));
    assert!(!target.metadata().requires_admin);
}

fn make(name: &'static str, size: u64) -> PlannedTarget {
    PlannedTarget {
        target: ResolvedTarget {
            category: Category::Dev,
            name,
            path: format!("/tmp/{}", name),
            mode: Mode::Entry,
        },
        metadata: TargetMetadata {
            risk: Risk::Medium,
            redownload_cost: "high",
            associated_app: None,
            requires_admin: false,
            expensive: true,
        },
        size,
    }
}

#[test]
fn optional_selection_preserves_user_order() {
    let mut plan = CleanPlan {
        targets: Vec::new(),
        optional: vec![make("a", 1), make("b", 1), make("c", 1)],
    };
    plan.include_optional(&[2, 0]);
    assert_eq!(plan.targets[0].target.name, "a");
    assert_eq!(plan.targets[1].target.name, "c");
    assert_eq!(plan.optional.len(), 1);
}

#[test]
fn choosing_loses_nothing() {
    let mut plan = CleanPlan {
        targets: vec![make("x", 3)],
        optional: vec![make("a", 1), make("b", 2)],
    };
    plan.include_optional(&[7, 1, 1]);
    assert_eq!(plan.targets.len(), 2);
    assert_eq!(plan.targets[1].target.name, "b");
    assert_eq!(plan.optional.len(), 1);
    assert_eq!(plan.total(), 5);
    plan.include_optional(&[]);
    assert_eq!(plan.targets.len(), 2);
    assert!(!plan.requires_admin());
}

#[test]
fn preview_takes_sizes_in_order() {
    let mut plan = CleanPlan {
        targets: vec![make("x", 0)],
        optional: vec![make("a", 9), make("b", 9)],
    };
    let file = |len: u64| {
        Some(Node {
            name: String::new(),
            path: String::new(),
            kind: NodeKind::File,
            len,
            children: Vec::new(),
        })
    };
    plan.preview(&vec![file(10), None, file(30)]);
    assert_eq!(plan.targets[0].size, 10);
    assert_eq!(plan.optional[0].size, 0);
    assert_eq!(plan.optional[1].size, 30);
}

fn browser(name: &'static str) -> ResolvedTarget {
    ResolvedTarget {
        category: Category::Browser,
        name,
        path: format!("/tmp/{}", name),
        mode: Mode::Contents,
    }
}

#[test]
fn running_owners_are_named_once() {
    let plan = CleanPlan::of(vec![
        browser("Chrome cache"),
        browser("Chrome code cache"),
        browser("Edge cache"),
    ]);
    assert_eq!(cache_owners(&plan), vec!["chrome.exe", "chrome.exe", "msedge.exe"]);
    let printed = "\"System\",\"4\"\r\n\"CHROME.EXE\",\"12\"\r\n";
    assert_eq!(running_among(&cache_owners(&plan), printed), vec!["chrome.exe"]);
    assert_eq!(
        running_cache_apps(&plan, true, Some(printed.as_bytes())),
        vec!["chrome.exe"]
    );
    assert!(running_cache_apps(&plan, true, None).is_empty());
    assert!(running_cache_apps(&plan, false, Some(printed.as_bytes())).is_empty());
    let broken = b"\xff\xfe chrome.exe \xff";
    assert_eq!(running_cache_apps(&plan, true, Some(&broken[..])), vec!["chrome.exe"]);
}
