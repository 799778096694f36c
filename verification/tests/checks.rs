use requiem_core::config::Config;
use requiem_core::directory::{Directory, DirectoryError};
use requiem_core::hrid::Hrid;
use requiem_core::list::{list_lines, ListOptions, ListOutput};
use requiem_core::listing::{ListingView, OutputFormat, SortField};
use requiem_core::markdown::trim_empty_lines;
use requiem_core::paths::hrid_from_full_path;
use requiem_core::validation::{
    fix_preview_lines, link_issues, path_issues, suspect_issues, summary_line, validation_report_lines, LinkIssue,
    PathIssue, SuspectIssue, ValidationResult,
};

fn hrid(text: &str) -> Hrid {
    text.parse().unwrap()
}

fn comps(parts: &[&str]) -> Vec<String> {
    parts.iter().map(|p| p.to_string()).collect()
}

fn options() -> ListOptions {
    ListOptions {
        targets: vec![],
        columns: vec![],
        sort: SortField::Hrid,
        output: OutputFormat::Table,
        quiet: true,
        kinds: vec![],
        namespaces: vec![],
        tags: vec![],
        orphans: false,
        leaves: false,
        contains: None,
        regex: None,
        view: ListingView::Summary,
        depth: None,
        limit: None,
        offset: None,
        ascii: false,
        color: false,
    }
}

#[test]
fn move_to_a_disallowed_kind_is_refused() {
    let mut config = Config::default();
    config.add_kind("USR");
    let mut dir = Directory::load(config, Vec::new(), Vec::new()).unwrap();
    let req = dir.add_requirement("USR", "# One".to_string(), &[]).unwrap();
    let before = dir.path_for(&req.hrid);
    match dir.move_requirement(&req.hrid, comps(&["SYS-001.md"])) {
        Err(DirectoryError::DisallowedKind(k)) => assert_eq!(k, "SYS"),
        other => panic!("unexpected {other:?}"),
    }
    assert_eq!(dir.path_for(&req.hrid), before);
    assert!(dir.tree().find_by_hrid(&hrid("SYS-001")).is_none());
}

#[test]
fn full_paths_must_lie_under_the_root() {
    let mut config = Config::default();
    config.set_subfolders_are_namespaces(true);
    let root = comps(&["", "root"]);
    assert_eq!(
        hrid_from_full_path(&comps(&["", "root", "SYSTEM", "AUTH", "REQ", "001.md"]), &root, &config).unwrap().to_string_with_digits(3),
        "SYSTEM-AUTH-REQ-001"
    );
    assert_eq!(
        hrid_from_full_path(&comps(&["", "root", "REQ", "001.md"]), &root, &config).unwrap().to_string_with_digits(3),
        "REQ-001"
    );
    assert!(hrid_from_full_path(&comps(&["", "root", "REQ", "invalid.md"]), &root, &config).is_err());
    let plain = Config::default();
    assert_eq!(
        hrid_from_full_path(&comps(&["", "other", "REQ-001.md"]), &root, &plain).unwrap_err(),
        "Path /other/REQ-001.md is not under root /root"
    );
}

#[test]
fn trimming_blank_lines_twice_changes_nothing() {
    let once = trim_empty_lines("\n\n  indented\n\nbody\n  \n");
    assert_eq!(once, "  indented\n\nbody");
    assert_eq!(trim_empty_lines(&once), once);
}

#[test]
fn a_healthy_store_reports_no_issues() {
    let mut dir = Directory::load(Config::default(), Vec::new(), Vec::new()).unwrap();
    let p = dir.add_requirement("SYS", "# Parent".to_string(), &[]).unwrap();
    let c = dir.add_requirement("USR", "# Child".to_string(), &[]).unwrap();
    dir.link_requirement(&c.hrid, &p.hrid).unwrap();
    let result = ValidationResult { paths: path_issues(&dir, "/r"), links: link_issues(&dir), suspect: suspect_issues(&dir) };
    assert_eq!(result.count_total_issues(), 0);
    assert_eq!(summary_line(&result), "issues=0");
    assert_eq!(
        validation_report_lines(&result, 2, false),
        vec![
            "Validating repository...",
            "",
            "✓ Structure:  2 requirements, all valid",
            "✓ Paths:      All files at canonical locations",
            "✓ Links:      No broken references, cycles, or stale HRIDs",
            "✓ Suspect:    No suspect links",
            "",
            "Repository is healthy (0 issues)",
        ]
    );
    assert!(validation_report_lines(&result, 2, true).is_empty());
}

#[test]
fn the_report_counts_each_kind_of_issue() {
    let result = ValidationResult {
        paths: vec![PathIssue { hrid: "USR-001".to_string(), current_path: "a/USR-001.md".to_string(), expected_path: "USR-001.md".to_string() }],
        links: vec![
            LinkIssue::StaleHrid { child: "USR-002".to_string() },
            LinkIssue::BrokenReference { child: "USR-003".to_string(), parent_uuid: "x".to_string() },
            LinkIssue::StaleHrid { child: "USR-004".to_string() },
        ],
        suspect: vec![SuspectIssue { child: "USR-005".to_string(), parent: "SYS-001".to_string() }],
    };
    let lines = validation_report_lines(&result, 5, false);
    assert_eq!(lines[3], "✗ Paths:      1 files not at canonical locations");
    assert_eq!(lines[4], "✗ Links:      3 (1 broken ref(s), 2 stale HRID(s))");
    assert_eq!(lines[5], "✗ Suspect:    1 suspect links found");
    assert_eq!(lines[7], "Summary: 5 issues found");
    assert_eq!(lines[9], "Run 'req validate --fix' to automatically repair fixable issues");
    assert_eq!(lines[10], "Run 'req review --accept --all' to accept all suspect links");
    assert_eq!(
        fix_preview_lines(&result),
        vec!["Paths (1 files):", "  • a/USR-001.md → USR-001.md", "", "Links (2 stale HRIDs):", "  • USR-002", "  • USR-004"]
    );
}

#[test]
fn listing_shows_every_requirement_and_refuses_unknown_targets() {
    let mut dir = Directory::load(Config::default(), Vec::new(), Vec::new()).unwrap();
    dir.add_requirement("USR", "# Two".to_string(), &[]).unwrap();
    dir.add_requirement("SYS", "# One".to_string(), &[]).unwrap();
    match list_lines(&dir, "/r", &options()).unwrap() {
        ListOutput::Lines(v) => assert_eq!(v, vec!["SYS-001", "USR-001"]),
        _ => panic!("lines expected"),
    }
    let mut o = options();
    o.targets = vec![hrid("USR-009")];
    assert_eq!(list_lines(&dir, "/r", &o).err().unwrap(), "requirement USR-009 not found");
    let mut o = options();
    o.kinds = vec!["REQ".to_string()];
    match list_lines(&dir, "/r", &o).unwrap() {
        ListOutput::Lines(v) => assert_eq!(v, vec!["No requirements matched the filters provided."]),
        _ => panic!("lines expected"),
    }
    let mut o = options();
    o.regex = Some("(".to_string());
    assert_eq!(list_lines(&dir, "/r", &o).err().unwrap(), "invalid regex: (");
}
