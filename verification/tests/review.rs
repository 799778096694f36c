use requiem_core::config::Config;
use requiem_core::directory::Directory;
use requiem_core::hrid::Hrid;
use requiem_core::requirement::Requirement;
use requiem_core::review::{
    accept_preview_lines, detail_lines, filter_suspect_links, grouped_lines, link_record, link_stats, quiet_lines, stats_lines,
    table_lines,
};
use requiem_core::tree::SuspectLink;

fn hrid(text: &str) -> Hrid {
    text.parse().unwrap()
}

/// A store where USR-001 and USR-002 trace to SYS-001, USR-001 also traces
/// to SYS-002, and both parents changed since the links were recorded.
fn store_with_suspects() -> Directory {
    let mut dir = Directory::load(Config::default(), Vec::new(), Vec::new()).unwrap();
    let p1 = dir.add_requirement("SYS", "# Parent\n\nOriginal".to_string(), &[]).unwrap();
    let p2 = dir.add_requirement("SYS", "# Other\n\nOriginal".to_string(), &[]).unwrap();
    let c1 = dir.add_requirement("USR", "# Child".to_string(), &[]).unwrap();
    let c2 = dir.add_requirement("USR", "# Second".to_string(), &[]).unwrap();
    dir.link_requirement(&c1.hrid, &p1.hrid).unwrap();
    dir.link_requirement(&c2.hrid, &p1.hrid).unwrap();
    dir.link_requirement(&c1.hrid, &p2.hrid).unwrap();
    let mut disk: Vec<(Vec<String>, Requirement)> = Vec::new();
    for (uuid, req, path) in dir.pending_writes() {
        disk.push((path, req));
        dir.record_written(uuid);
    }
    let loaded = disk.iter().map(|(p, r)| (r.clone(), p.clone())).collect();
    let mut dir = Directory::load(Config::default(), loaded, Vec::new()).unwrap();
    dir.update_requirement(&p1.hrid, None, Some("Changed".to_string()), None).unwrap();
    dir.update_requirement(&p2.hrid, None, Some("Changed".to_string()), None).unwrap();
    dir
}

fn links(dir: &Directory) -> Vec<SuspectLink> {
    let links = dir.suspect_links();
    assert_eq!(links.len(), 3);
    links
}

#[test]
fn filters_by_child_parent_and_kind() {
    let dir = store_with_suspects();
    let by_kind = filter_suspect_links(links(&dir), &None, &None, &Some("usr".to_string()));
    assert_eq!(by_kind.len(), 3);
    let other_kind = filter_suspect_links(links(&dir), &None, &None, &Some("sys".to_string()));
    assert!(other_kind.is_empty());
    let by_parent = filter_suspect_links(links(&dir), &None, &Some(hrid("SYS-002")), &None);
    assert_eq!(by_parent.len(), 1);
    assert_eq!(by_parent[0].child_hrid, hrid("USR-001"));
    let both = filter_suspect_links(links(&dir), &Some(hrid("USR-002")), &Some(hrid("SYS-001")), &None);
    assert_eq!(both.len(), 1);
}

#[test]
fn stats_count_links_parents_children_and_kinds() {
    let dir = store_with_suspects();
    let stats = link_stats(&links(&dir), 3);
    assert_eq!(stats.total, 3);
    assert_eq!(stats.unique_parents, 2);
    assert_eq!(stats.unique_children, 2);
    assert_eq!(stats.by_kind, vec![("USR".to_string(), 3)]);
    assert_eq!(stats.top_parents, vec![("SYS-001".to_string(), 2), ("SYS-002".to_string(), 1)]);
    let lines = stats_lines(&stats);
    assert_eq!(
        lines,
        vec![
            "Suspect Link Statistics",
            "",
            "Total suspect links:       3",
            "Unique parents affected:   2",
            "Unique children affected:  2",
            "",
            "By child requirement kind:",
            "  USR  →  *     3 links",
            "",
            "Most affected parents:",
            "  SYS-001  (2 children)",
            "  SYS-002  (1 children)",
        ]
    );
}

#[test]
fn stats_omit_ranking_with_one_parent() {
    let dir = store_with_suspects();
    let one = filter_suspect_links(links(&dir), &None, &Some(hrid("SYS-001")), &None);
    let stats = link_stats(&one, 3);
    assert_eq!(stats.unique_parents, 1);
    assert!(stats.top_parents.is_empty());
    assert!(!stats_lines(&stats).iter().any(|l| l == "Most affected parents:"));
}

#[test]
fn grouped_by_parent_lists_children_under_each_parent() {
    let dir = store_with_suspects();
    let lines = grouped_lines(&dir, &links(&dir), true, 3);
    assert_eq!(lines[0], "Suspect Links by Parent (2 parents, 3 links total)");
    assert_eq!(lines[1], "");
    assert_eq!(lines[2], "SYS-001 (Parent)");
    let mut members = vec![lines[3].clone(), lines[4].clone()];
    assert!(members[0].starts_with("├─  "));
    assert!(members[1].starts_with("└─  "));
    members.sort_by_key(|m| m.chars().skip(4).collect::<String>());
    assert!(members[0].ends_with("USR-001  Child"));
    assert!(members[1].ends_with("USR-002  Second"));
    assert_eq!(lines[5], "");
    assert_eq!(lines[6], "SYS-002 (Other)");
    assert_eq!(lines[7], "└─  USR-001  Child");
    assert_eq!(lines[8], "");
    assert_eq!(lines.len(), 9);
}

#[test]
fn grouped_by_child_lists_parents_under_each_child() {
    let dir = store_with_suspects();
    let lines = grouped_lines(&dir, &links(&dir), false, 3);
    assert_eq!(lines[0], "Suspect Links by Child (2 children, 3 links total)");
    assert_eq!(lines[2], "USR-001 (Child)");
    assert_eq!(lines[6], "USR-002 (Second)");
    assert_eq!(lines[7], "└─  SYS-001  Parent");
}

#[test]
fn table_shows_titles_and_hints() {
    let dir = store_with_suspects();
    let all = links(&dir);
    let lines = table_lines(&dir, &all, 3);
    assert_eq!(lines[0], "Suspect Links Found: 3");
    assert_eq!(lines[2], "CHILD        → PARENT           TITLE (CHILD → PARENT)");
    assert_eq!(lines[3], "─".repeat(70));
    assert!(lines.contains(&"USR-001      → SYS-001          Child → Parent".to_string()));
    assert!(lines.contains(&"USR-002      → SYS-001          Second → Parent".to_string()));
    assert_eq!(lines[lines.len() - 2], "Run 'req review --detail' for paths and fingerprints");
    assert_eq!(lines.len(), 4 + 3 + 3);
}

#[test]
fn quiet_lists_child_parent_pairs() {
    let dir = store_with_suspects();
    let all = links(&dir);
    let mut lines = quiet_lines(&all, 3);
    lines.sort();
    assert_eq!(lines, vec!["USR-001 SYS-001", "USR-001 SYS-002", "USR-002 SYS-001"]);
}

#[test]
fn detail_shows_paths_fingerprints_and_action() {
    let dir = store_with_suspects();
    let one = filter_suspect_links(links(&dir), &Some(hrid("USR-002")), &None, &None);
    let lines = detail_lines(&dir, "/req", &one, 3);
    let stored = one[0].stored_fingerprint.clone();
    let current = one[0].current_fingerprint.clone();
    assert_ne!(stored, current);
    assert_eq!(
        lines,
        vec![
            "━".repeat(70),
            "Suspect Link #1 of 1".to_string(),
            String::new(),
            "  CHILD:   USR-002  Second".to_string(),
            "           Path:     /req/USR-002.md".to_string(),
            String::new(),
            "  PARENT:  SYS-001  Parent".to_string(),
            "           Path:     /req/SYS-001.md".to_string(),
            String::new(),
            "  REASON:  Parent content changed (fingerprint drift)".to_string(),
            String::new(),
            format!("  STORED:  {stored}"),
            format!("  CURRENT: {current}"),
            String::new(),
            "  ACTIONS:".to_string(),
            "    req review --accept --child USR-002 --parent SYS-001".to_string(),
            "━".repeat(70),
        ]
    );
}

#[test]
fn detail_separates_blocks_with_blank_lines() {
    let dir = store_with_suspects();
    let all = links(&dir);
    let lines = detail_lines(&dir, "", &all, 3);
    assert_eq!(lines.len(), 17 * 3 + 2);
    assert_eq!(lines[17], "");
    assert_eq!(lines[19], "Suspect Link #2 of 3");
}

#[test]
fn accept_preview_counts_links_and_files() {
    let dir = store_with_suspects();
    let lines = accept_preview_lines(&links(&dir), 3);
    assert_eq!(lines[0], "Will accept 3 suspect links across 2 files:");
    assert!(lines.contains(&"  USR-002 ← SYS-001".to_string()));
    assert_eq!(lines.len(), 4);
}

#[test]
fn record_describes_both_ends() {
    let dir = store_with_suspects();
    let one = filter_suspect_links(links(&dir), &Some(hrid("USR-002")), &None, &None);
    let record = link_record(&dir, "/req", &one[0], 3);
    assert_eq!(record.child.hrid, "USR-002");
    assert_eq!(record.child.title, Some("Second".to_string()));
    assert_eq!(record.child.path, "/req/USR-002.md");
    assert_eq!(record.child.kind, "USR");
    assert_eq!(record.parent.hrid, "SYS-001");
    assert_eq!(record.parent.title, Some("Parent".to_string()));
    assert_eq!(record.parent.path, "/req/SYS-001.md");
    assert_eq!(record.parent.kind, "SYS");
    assert_eq!(record.status, "fingerprint drift");
    assert_eq!(record.stored_fingerprint, one[0].stored_fingerprint);
    assert_eq!(record.current_fingerprint, one[0].current_fingerprint);
}
