use std::cell::RefCell;

use dustpan::clean::{AuditEntry, CleanStats, Cleaner, Failure, FailureKind, Hands, Listed};
use dustpan::cli::Options;
use dustpan::plan::{CleanPlan, PlannedTarget};
use dustpan::safety::Safety;
use dustpan::scan::{Node, NodeKind};
use dustpan::session::{
    after_bin, after_cleaning, after_retry, bin_step, choose_optional_targets, clean_all, open_session, options_from, prepare, print_preview, print_target_list, report,
    retry_question, show_plan, take_consent, take_retry_answer, take_running_consent, take_sizes, BinStep, Next,
};
use dustpan::settings::Settings;
use dustpan::targets::{Category, Mode, ResolvedTarget, Risk, TargetMetadata};
use dustpan::ui::Style;

const PLAIN: Style = Style { on: false };

fn planned(name: &'static str, category: Category, size: u64, expensive: bool, admin: bool) -> PlannedTarget {
    PlannedTarget {
        target: ResolvedTarget {
            category,
            name,
            path: format!("/base/{}", name),
            mode: Mode::Entry,
        },
        metadata: TargetMetadata {
            risk: if expensive || admin { Risk::Medium } else { Risk::Low },
            redownload_cost: if expensive { "high" } else { "low" },
            associated_app: None,
            requires_admin: admin,
            expensive,
        },
        size,
    }
}

fn plan() -> CleanPlan {
    CleanPlan {
        targets: vec![
            planned("pip", Category::Dev, 2048, false, false),
            planned("temp", Category::Temp, 0, false, false),
        ],
        optional: vec![
            planned("empty", Category::Dev, 0, true, false),
            planned("maven", Category::Dev, 1024, true, false),
            planned("updates", Category::System, 512, false, true),
        ],
    }
}

fn node(len: u64) -> Option<Node> {
    Some(Node {
        name: String::new(),
        path: String::new(),
        kind: NodeKind::File,
        len,
        children: Vec::new(),
    })
}

#[test]
fn opening() {
    let opts = Options::default();
    let nothing = open_session(&CleanPlan::default(), &opts, true, &PLAIN);
    assert_eq!(nothing.text, "No cleanable targets found on this system.\n");
    assert_eq!(nothing.next, Next::End(true));
    let elsewhere = open_session(&CleanPlan::default(), &opts, false, &PLAIN);
    assert_eq!(
        elsewhere.text,
        "No cleanable targets found on this system.\n(dpan targets Windows paths; nothing resolves on this OS)\n"
    );
    let start = open_session(&plan(), &opts, true, &PLAIN);
    assert_eq!(start.text, "dpan clean \nscanning...\n");
    assert_eq!(start.next, Next::Measure);
    let mut dry = Options::default();
    dry.dry_run = true;
    assert_eq!(open_session(&plan(), &dry, true, &PLAIN).text, "dpan clean (dry run)\nscanning...\n");
    let mut bin = Options::default();
    bin.recycle_bin = true;
    assert_eq!(open_session(&CleanPlan::default(), &bin, true, &PLAIN).next, Next::Measure);
    let mut list = Options::default();
    list.list = true;
    let listed = open_session(&plan(), &list, true, &PLAIN);
    assert_eq!(listed.next, Next::End(true));
    assert_eq!(listed.text, print_target_list(&plan().all_resolved(), &PLAIN));
}

#[test]
fn the_target_list() {
    let found = vec![
        ResolvedTarget {
            category: Category::Dev,
            name: "pip cache",
            path: "/l/pip".to_string(),
            mode: Mode::Contents,
        },
        ResolvedTarget {
            category: Category::System,
            name: "Windows Update cache",
            path: "/w/d".to_string(),
            mode: Mode::Contents,
        },
    ];
    let pad = |s: &str, n: usize| format!("{}{}", s, " ".repeat(n - s.len()));
    assert_eq!(
        print_target_list(&found, &PLAIN),
        format!(
            "{}\n  {} {} /w/d\n{}\n  {} {} /l/pip\n",
            Category::System.label(),
            pad("Windows Update cache", 28),
            pad("optional: review required", 34),
            Category::Dev.label(),
            pad("pip cache", 28),
            pad("smart default", 34)
        )
    );
}

#[test]
fn optional_targets_are_shown_and_chosen() {
    let mut p = plan();
    let entries = vec![node(2048), None, None, node(1024), node(512)];
    let asked = take_sizes(&mut p, &entries, false, true, &PLAIN);
    assert_eq!(asked.next, Next::AskOptional);
    assert_eq!(p.targets[0].size, 2048);
    let pad = |s: &str| format!("{}{}", s, " ".repeat(28 - s.len()));
    assert_eq!(
        asked.text,
        format!(
            "\nAdditional caches found (not selected)\nThese are safe to inspect, but may be slow or expensive to download again.\n   1. {}     1.0 KB  high re-download cost\n   2. {}      512 B  needs administrator permission\nSelect caches to include (e.g. 1,3 or all; Enter skips): ",
            pad("maven"),
            pad("updates")
        )
    );
    let next = choose_optional_targets(&mut p, Some("2; 2,9 0 x\n"));
    assert_eq!(next, Next::Show);
    let names: Vec<&str> = p.targets.iter().map(|t| t.target.name).collect();
    assert_eq!(names, vec!["pip", "temp", "updates"]);
    assert_eq!(p.optional.len(), 2);
    choose_optional_targets(&mut p, Some(" ALL\n"));
    assert_eq!(p.targets.len(), 4);
    assert_eq!(p.optional.len(), 1);
    assert_eq!(p.optional[0].target.name, "empty");
    choose_optional_targets(&mut p, Some("\n"));
    assert_eq!(choose_optional_targets(&mut p, None), Next::Show);
    assert_eq!(p.targets.len(), 4);
}

#[test]
fn unattended_sessions_skip_the_choice() {
    for (yes, interactive) in [(true, true), (false, false), (true, false)] {
        let mut p = plan();
        let entries = vec![None, None, None, node(1), None];
        let shown = take_sizes(&mut p, &entries, yes, interactive, &PLAIN);
        assert_eq!(shown.next, Next::Show);
        assert!(shown.text.ends_with("Skipped by Smart Clean.\n"));
    }
    let mut p = plan();
    let none = take_sizes(&mut p, &vec![None, None, None, None, None], false, true, &PLAIN);
    assert_eq!((none.text.as_str(), none.next), ("", Next::Show));
}

#[test]
fn the_plan_is_shown() {
    let p = plan();
    let pad = |s: &str| format!("{}{}", s, " ".repeat(28 - s.len()));
    let brief = format!(
        "\n{}\n  {}     2.0 KB  [low risk, low re-download]\n",
        Category::Dev.label(),
        pad("pip")
    );
    assert_eq!(print_preview(&p, false, &PLAIN), brief);
    let long = print_preview(&p, true, &PLAIN);
    assert!(long.contains("      /base/pip\n"));
    assert!(long.contains("        0 B  [low risk, low re-download]\n      /base/temp\n"));
    let asked = show_plan(&p, &Options::default(), &PLAIN);
    assert_eq!(
        asked.text,
        format!("{}\nTotal reclaimable: 2.0 KB\n\nProceed with cleaning? [y/N] ", brief)
    );
    assert_eq!(asked.next, Next::AskProceed);
    let mut yes = Options::default();
    yes.yes = true;
    let go = show_plan(&p, &yes, &PLAIN);
    assert!(go.text.ends_with("2.0 KB\n\n"));
    assert_eq!(go.next, Next::Prepare);
    let empty = show_plan(&CleanPlan::default(), &yes, &PLAIN);
    assert_eq!(empty.text, "\nTotal reclaimable: 0 B\nNothing to clean.\n");
    assert_eq!(empty.next, Next::End(true));
    yes.recycle_bin = true;
    assert_eq!(show_plan(&CleanPlan::default(), &yes, &PLAIN).next, Next::Prepare);
}

#[test]
fn cleaning_takes_consent() {
    assert_eq!(take_consent(true).next, Next::Prepare);
    let no = take_consent(false);
    assert_eq!(no.next, Next::End(true));
    assert_eq!(no.text, "Aborted, nothing was deleted.\n");
    let mut p = plan();
    p.targets.push(planned("updates", Category::System, 1, false, true));
    let running = vec!["chrome.exe".to_string(), "code.exe".to_string()];
    let opts = Options::default();
    let asked = prepare(&p, &opts, false, &running, &PLAIN);
    assert_eq!(asked.next, Next::AskRunning);
    assert_eq!(
        asked.text,
        "Windows system caches may need administrator permission; dpan will request UAC only if deletion is denied.\n\
         Cache owners are running: chrome.exe, code.exe\n\
         Close them first so all cache files can be removed.\n\
         Continue and retry locked files later? [y/N] "
    );
    let calm = prepare(&p, &opts, true, &vec![], &PLAIN);
    assert_eq!((calm.text.as_str(), calm.next), ("", Next::Clean));
    let mut yes = Options::default();
    yes.yes = true;
    assert_eq!(prepare(&p, &yes, true, &running, &PLAIN).next, Next::Clean);
    let mut dry = Options::default();
    dry.dry_run = true;
    assert_eq!(prepare(&p, &dry, true, &running, &PLAIN).next, Next::Clean);
    assert_eq!(take_running_consent(true).next, Next::Clean);
    assert_eq!(take_running_consent(false).next, Next::End(true));
}

#[test]
fn the_whole_plan_is_cleaned() {
    let p = CleanPlan {
        targets: vec![
            planned("a", Category::Dev, 1, false, false),
            planned("sys", Category::System, 1, false, true),
            planned("b", Category::Dev, 1, false, false),
        ],
        optional: vec![planned("left", Category::Dev, 1, true, false)],
    };
    let removed: RefCell<Vec<String>> = RefCell::new(Vec::new());
    let elevated: RefCell<Vec<String>> = RefCell::new(Vec::new());
    let hands = Hands {
        read: |_: &str| node(7),
        remove: |path: &str| {
            if path.ends_with("/a") {
                removed.borrow_mut().push(path.to_string());
                Ok(())
            } else {
                Err(Failure { kind: FailureKind::PermissionDenied, message: String::new() })
            }
        },
        elevate: |path: &str| {
            elevated.borrow_mut().push(path.to_string());
            true
        },
        note: |_: &AuditEntry| {},
    };
    let is_link = |_: &str| false;
    let list = |_: &str| -> Option<Vec<Listed>> { None };
    let safety = Safety::for_test(&vec!["/base".to_string()], &vec![]);
    let mut cleaner = Cleaner::new(&safety, false, true);
    let stats = clean_all(&p, &mut cleaner, &hands, &is_link, &list);
    assert_eq!((stats.deleted, stats.failed, stats.freed), (2, 1, 14));
    assert_eq!(*removed.borrow(), vec!["/base/a"]);
    // only the cache of the system may ask for rights
    assert_eq!(*elevated.borrow(), vec!["/base/sys"]);
    assert_eq!(stats.failed_paths, vec!["/base/b"]);

    let mut dry = Cleaner::new(&safety, true, true);
    let stats = clean_all(&p, &mut dry, &hands, &is_link, &list);
    assert_eq!((stats.deleted, stats.failed, stats.freed), (3, 0, 21));
    assert!(dry.audit.is_empty());
    assert_eq!(removed.borrow().len(), 1);
}

#[test]
fn a_dry_session_counts_as_a_real_one() {
    let mut p = plan();
    p.targets.push(planned("outside", Category::Dev, 1, false, false));
    p.targets[2].target.path = "/elsewhere/outside".to_string();
    let file = |path: &str| {
        Some(Node {
            name: String::new(),
            path: path.to_string(),
            kind: NodeKind::File,
            len: path.len() as u64,
            children: vec![],
        })
    };
    let hands = Hands {
        read: file,
        remove: |_: &str| -> Result<(), Failure> { Ok(()) },
        elevate: |_: &str| false,
        note: |_: &AuditEntry| {},
    };
    let is_link = |_: &str| false;
    let list = |_: &str| -> Option<Vec<Listed>> { None };
    let safety = Safety::for_test(&vec!["/base".to_string()], &vec![]);
    let dry = clean_all(&p, &mut Cleaner::new(&safety, true, true), &hands, &is_link, &list);
    let done = clean_all(&p, &mut Cleaner::new(&safety, false, true), &hands, &is_link, &list);
    assert_eq!((dry.deleted, dry.freed, dry.skipped, dry.failed), (2, 19, 1, 0));
    assert_eq!((done.deleted, done.freed, done.skipped, done.failed), (2, 19, 1, 0));
}

#[test]
fn what_failed_may_be_tried_again() {
    let mut stats = CleanStats::default();
    let lines = vec!["skip (x): /y".to_string()];
    let mut opts = Options::default();
    assert_eq!(after_cleaning(&opts, &stats, &lines, true, &PLAIN).next, Next::Report);
    stats.failed = 1;
    let asked = after_cleaning(&opts, &stats, &lines, true, &PLAIN);
    assert_eq!((asked.text.as_str(), asked.next), ("", Next::AskRetry));
    assert_eq!(after_cleaning(&opts, &stats, &lines, false, &PLAIN).next, Next::Report);
    opts.verbose = true;
    opts.dry_run = true;
    let dry = after_cleaning(&opts, &stats, &lines, true, &PLAIN);
    assert_eq!((dry.text.as_str(), dry.next), ("skip (x): /y\n", Next::Report));
    assert_eq!(retry_question(&vec![], &PLAIN), "Retry failed entries now? [y/N] ");
    assert_eq!(
        retry_question(&vec!["a.exe".to_string()], &PLAIN),
        "Still in use: a.exe\nClose the listed programs, then choose retry.\nRetry failed entries now? [y/N] "
    );
    let mut retry = CleanStats::default();
    retry.deleted = 1;
    assert_eq!(take_retry_answer(true), Next::Retry);
    assert_eq!(take_retry_answer(false), Next::Report);
    let said = after_retry(&mut stats, retry, &PLAIN);
    assert_eq!((said.text.as_str(), said.next), ("✓ retried entries removed\n", Next::Report));
    assert_eq!((stats.failed, stats.deleted), (0, 1));
    stats.failed = 1;
    let said = after_retry(&mut stats, CleanStats::default(), &PLAIN);
    assert_eq!((said.text.as_str(), said.next), ("", Next::Report));
    assert_eq!((stats.failed, stats.deleted), (0, 1));
}

#[test]
fn reports() {
    let mut stats = CleanStats::default();
    stats.freed = 2048;
    stats.deleted = 3;
    let mut opts = Options::default();
    let log = Some("/l/operations.log".to_string());
    let done = report(&opts, &stats, &log, &PLAIN);
    assert_eq!(
        done.text,
        "✓ Freed 2.0 KB (3 items)\n  audit log: /l/operations.log\n"
    );
    assert_eq!(done.next, Next::End(true));
    stats.failed = 10;
    stats.skipped = 2;
    stats.failure_reasons = (0..10).map(|i| format!("r{}", i)).collect();
    let failed = report(&opts, &stats, &None, &PLAIN);
    assert_eq!(
        failed.text,
        "✓ Freed 2.0 KB (3 items)\n  10 entries could not be removed\n  r0\n  r1\n  r2\n  r3\n  r4\n  r5\n  r6\n  r7\n  2 entries protected/whitelisted, kept\n"
    );
    assert_eq!(failed.next, Next::End(false));
    opts.verbose = true;
    opts.recycle_bin = true;
    let long = report(&opts, &stats, &None, &PLAIN);
    assert!(long.text.contains("  r8\n  r9\n"));
    assert_eq!(long.next, Next::EmptyBin);
    opts.dry_run = true;
    let dry = report(&opts, &stats, &log, &PLAIN);
    assert!(dry.text.starts_with("✓ Would free 2.0 KB (3 items)\n"));
    assert!(!dry.text.contains("audit log"));
}

#[test]
fn the_recycle_bin() {
    assert!(matches!(bin_step(false, true, &PLAIN), BinStep::Empty));
    match bin_step(true, true, &PLAIN) {
        BinStep::Say(text) => assert_eq!(text, "dry run: would empty the Recycle Bin\n"),
        BinStep::Empty => panic!("emptied"),
    }
    match bin_step(false, false, &PLAIN) {
        BinStep::Say(text) => {
            assert_eq!(text, "--recycle-bin is only available on Windows, skipped\n")
        }
        BinStep::Empty => panic!("emptied"),
    }
    let mut stats = CleanStats::default();
    let done = after_bin(&stats, Some(true), &PLAIN);
    assert_eq!((done.text.as_str(), done.next), ("✓ Recycle Bin emptied\n", Next::End(true)));
    let kept = after_bin(&stats, Some(false), &PLAIN);
    assert_eq!(
        (kept.text.as_str(), kept.next),
        ("could not empty the Recycle Bin\n", Next::End(false))
    );
    let left = after_bin(&stats, None, &PLAIN);
    assert_eq!((left.text.as_str(), left.next), ("", Next::End(true)));
    stats.failed = 1;
    assert_eq!(after_bin(&stats, Some(true), &PLAIN).next, Next::End(false));
    assert_eq!(after_bin(&stats, None, &PLAIN).next, Next::End(false));
}

#[test]
fn the_menu_cleans_by_the_settings() {
    let all = options_from(&Settings::default());
    assert_eq!(all.only, None);
    assert!(!all.yes && !all.recycle_bin && !all.dry_run && !all.list && !all.verbose);
    let some = options_from(&Settings {
        categories: vec![Category::Dev],
        recycle_bin: true,
        confirm_clean: false,
        color: true,
    });
    assert_eq!(some.only, Some(vec![Category::Dev]));
    assert!(some.yes && some.recycle_bin);
}
