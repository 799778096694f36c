use requiem_core::config::Config;
use requiem_core::directory::{AddRequirementError, Directory, DirectoryError, DirectoryLoadError};
use requiem_core::hrid::Hrid;
use requiem_core::requirement::Requirement;

fn hrid(text: &str) -> Hrid {
    text.parse().unwrap()
}

fn empty_directory() -> Directory {
    Directory::load(Config::default(), Vec::new(), Vec::new()).unwrap()
}

fn restricted_config() -> Config {
    let mut config = Config::default();
    config.add_kind("USR");
    config.add_kind("SYS");
    config
}

fn comps(parts: &[&str]) -> Vec<String> {
    parts.iter().map(|p| p.to_string()).collect()
}

/// Writes every pending file into `disk` and removes the queued files, as a
/// successful flush does.
fn flush(dir: &mut Directory, disk: &mut Vec<(Vec<String>, Requirement)>) {
    let writes = dir.pending_writes();
    for (uuid, req, path) in writes {
        disk.retain(|(p, _)| *p != path);
        disk.push((path, req));
        dir.record_written(uuid);
    }
    for gone in dir.take_deletions(false) {
        disk.retain(|(p, _)| *p != gone);
    }
}

/// Reopens a store from what `flush` wrote.
fn reload(config: Config, disk: &[(Vec<String>, Requirement)]) -> Directory {
    let loaded = disk.iter().map(|(p, r)| (r.clone(), p.clone())).collect();
    Directory::load(config, loaded, Vec::new()).unwrap()
}

fn on_disk(disk: &[(Vec<String>, Requirement)], parts: &[&str]) -> bool {
    let path = comps(parts);
    disk.iter().any(|(p, _)| *p == path)
}

#[test]
fn directory_can_add_requirement() {
    let mut dir = empty_directory();
    let mut disk = Vec::new();
    let r1 = dir.add_requirement("REQ", String::new(), &[]).unwrap();
    flush(&mut dir, &mut disk);

    assert_eq!(r1.hrid.display(3).to_string(), "REQ-001");
    let loaded = disk.iter().find(|(p, _)| *p == comps(&["REQ-001.md"])).unwrap();
    assert_eq!(loaded.1.uuid(), r1.uuid());
}

#[test]
fn directory_can_add_multiple_requirements_with_incrementing_id() {
    let mut dir = empty_directory();
    let mut disk = Vec::new();
    let r1 = dir.add_requirement("REQ", String::new(), &[]).unwrap();
    let r2 = dir.add_requirement("REQ", String::new(), &[]).unwrap();
    flush(&mut dir, &mut disk);

    assert_eq!(r1.hrid.display(3).to_string(), "REQ-001");
    assert_eq!(r2.hrid.display(3).to_string(), "REQ-002");
}

#[test]
fn directory_can_link_two_requirements() {
    let mut dir = empty_directory();
    let mut disk = Vec::new();
    let parent = dir.add_requirement("SYS", String::new(), &[]).unwrap();
    let child = dir.add_requirement("USR", String::new(), &[]).unwrap();
    flush(&mut dir, &mut disk);

    let mut reloaded = reload(Config::default(), &disk);
    reloaded.link_requirement(&child.hrid, &parent.hrid).unwrap();
    flush(&mut reloaded, &mut disk);

    let updated = &disk.iter().find(|(p, _)| *p == comps(&["USR-001.md"])).unwrap().1;
    assert_eq!(updated.parents.len(), 1);
    assert_eq!(updated.parents[0].0, parent.uuid());
    assert_eq!(updated.parents[0].1.hrid, parent.hrid);
}

#[test]
fn directory_update_hrids_corrects_outdated_parent_hrids() {
    let mut dir = empty_directory();
    let mut disk = Vec::new();
    let parent = dir.add_requirement("P", String::new(), &[]).unwrap();
    let child = dir.add_requirement("C", String::new(), &[]).unwrap();
    dir.link_requirement(&child.hrid, &parent.hrid).unwrap();
    flush(&mut dir, &mut disk);

    // Corrupt the parent HRID recorded on the child's link.
    for (_, r) in disk.iter_mut() {
        if r.uuid() == child.uuid() {
            r.parents[0].1.hrid = hrid("WRONG-999");
        }
    }

    let mut loaded = reload(Config::default(), &disk);
    let changed = loaded.update_hrids();
    assert_eq!(changed, vec![child.hrid.clone()]);
    flush(&mut loaded, &mut disk);

    let updated = &disk.iter().find(|(_, r)| r.uuid() == child.uuid()).unwrap().1;
    assert_eq!(updated.parents[0].1.hrid, parent.hrid);
}

#[test]
fn directory_load_all_reads_all_saved_requirements() {
    let mut dir = empty_directory();
    let mut disk = Vec::new();
    let r1 = dir.add_requirement("X", String::new(), &[]).unwrap();
    let r2 = dir.add_requirement("X", String::new(), &[]).unwrap();
    flush(&mut dir, &mut disk);

    let loaded = reload(Config::default(), &disk);
    let mut found = 0;
    for i in 1..=2 {
        let h = hrid(&format!("X-00{i}"));
        let view = loaded.tree().find_by_hrid(&h).unwrap();
        if view.uuid == r1.uuid() || view.uuid == r2.uuid() {
            found += 1;
        }
    }
    assert_eq!(found, 2);
}

#[test]
fn directory_add_requirement_rejects_disallowed_kind() {
    let mut dir = Directory::load(restricted_config(), Vec::new(), Vec::new()).unwrap();
    let result = dir.add_requirement("REQ", "# Test".to_string(), &[]);
    match result {
        Err(AddRequirementError::DisallowedKind { kind, allowed_kinds }) => {
            assert_eq!(kind, "REQ");
            assert_eq!(allowed_kinds, "USR, SYS");
        }
        other => panic!("Expected DisallowedKind error, got: {other:?}"),
    }
}

#[test]
fn directory_add_requirement_allows_configured_kind() {
    let mut dir = Directory::load(restricted_config(), Vec::new(), Vec::new()).unwrap();
    let result = dir.add_requirement("USR", "# Test".to_string(), &[]);
    assert!(result.is_ok());
}

#[test]
fn directory_directory_new_rejects_disallowed_kinds() {
    let mut dir = empty_directory();
    let mut disk = Vec::new();
    dir.add_requirement("REQ", "# Test\n\nContent".to_string(), &[]).unwrap();
    flush(&mut dir, &mut disk);

    let loaded = disk.iter().map(|(p, r)| (r.clone(), p.clone())).collect();
    match Directory::load(restricted_config(), loaded, Vec::new()) {
        Err(DirectoryLoadError::DisallowedKinds { files, allowed_kinds }) => {
            assert_eq!(files.len(), 1);
            assert_eq!(files[0].1, "REQ");
            assert_eq!(allowed_kinds, vec!["USR".to_string(), "SYS".to_string()]);
        }
        Ok(_) => panic!("Expected DisallowedKinds error, but directory loaded successfully"),
        Err(e) => panic!("Expected DisallowedKinds error, got: {e:?}"),
    }
}

#[test]
fn directory_directory_new_allows_when_no_kinds_configured() {
    let mut dir = empty_directory();
    let mut disk = Vec::new();
    dir.add_requirement("REQ", "# Test\n\nContent".to_string(), &[]).unwrap();
    flush(&mut dir, &mut disk);

    let loaded = disk.iter().map(|(p, r)| (r.clone(), p.clone())).collect();
    assert!(Directory::load(Config::default(), loaded, Vec::new()).is_ok());
}

#[test]
fn load_refuses_unrecognised_files_under_strict_config() {
    let unrecognised = vec![(comps(&["notes.md"]), "not a requirement".to_string())];
    match Directory::load(Config::default(), Vec::new(), unrecognised) {
        Err(DirectoryLoadError::UnrecognisedFiles(files)) => {
            assert_eq!(files.len(), 1);
            assert_eq!(files[0].0, comps(&["notes.md"]));
        }
        Ok(_) => panic!("unrecognised files must be refused"),
        Err(e) => panic!("Expected UnrecognisedFiles, got: {e:?}"),
    }
}

#[test]
fn load_refuses_duplicate_hrids() {
    let a = Requirement::new(hrid("REQ-001"), "A".to_string(), String::new());
    let b = Requirement::new(hrid("REQ-001"), "B".to_string(), String::new());
    let loaded = vec![(a, comps(&["a.md"])), (b, comps(&["b.md"]))];
    match Directory::load(Config::default(), loaded, Vec::new()) {
        Err(DirectoryLoadError::Duplicate { path, .. }) => assert_eq!(path, comps(&["b.md"])),
        Ok(_) => panic!("duplicate HRIDs must be refused"),
        Err(e) => panic!("Expected Duplicate, got: {e:?}"),
    }
}

#[test]
fn directory_add_namespaced_requirements_increments_ids_correctly() {
    let mut dir = empty_directory();
    let mut disk = Vec::new();
    let req1 = dir
        .add_requirement_with_namespace(
            vec!["SYSTEM".to_string(), "AUTH".to_string()],
            "USR",
            "# First requirement".to_string(),
            &[],
        )
        .unwrap();
    let req2 = dir
        .add_requirement_with_namespace(
            vec!["SYSTEM".to_string(), "AUTH".to_string()],
            "USR",
            "# Second requirement".to_string(),
            &[],
        )
        .unwrap();

    assert_eq!(req1.hrid.display(3).to_string(), "SYSTEM-AUTH-USR-001");
    assert_eq!(req2.hrid.display(3).to_string(), "SYSTEM-AUTH-USR-002");
    flush(&mut dir, &mut disk);
    assert_eq!(disk.len(), 2);
}

#[test]
fn add_requirement_rejects_invalid_kind_and_segment() {
    let mut dir = empty_directory();
    assert!(matches!(
        dir.add_requirement("req", String::new(), &[]),
        Err(AddRequirementError::Hrid(_))
    ));
    assert!(matches!(
        dir.add_requirement_with_namespace(vec!["a-b".to_string()], "REQ", String::new(), &[]),
        Err(AddRequirementError::Hrid(_))
    ));
    assert!(dir.tree().iter().is_empty());
}

#[test]
fn add_requirement_uses_template_when_content_is_empty() {
    let mut dir = empty_directory();
    let templates = vec![("USR.md".to_string(), "Template body".to_string())];
    let req = dir.add_requirement("USR", String::new(), &templates).unwrap();
    assert_eq!(req.title, "");
    assert_eq!(req.body, "Template body");
    let req = dir.add_requirement("USR", "# Given\n\nText".to_string(), &templates).unwrap();
    assert_eq!(req.title, "Given");
    assert_eq!(req.body, "Text");
}

#[test]
fn directory_add_requirement_records_path() {
    let mut dir = empty_directory();
    let req = dir.add_requirement("REQ", String::new(), &[]).unwrap();
    let expected = dir.canonical_path_for(&req.hrid);
    assert_eq!(expected, comps(&["REQ-001.md"]));
    assert_eq!(dir.path_for(&req.hrid), Some(expected));
}

#[test]
fn directory_rename_after_flush_removes_old_file() {
    let mut dir = empty_directory();
    let mut disk = Vec::new();
    let req = dir.add_requirement("REQ", String::new(), &[]).unwrap();
    flush(&mut dir, &mut disk);
    assert!(on_disk(&disk, &["REQ-001.md"]));

    let new_hrid = hrid("SYS-001");
    dir.rename_requirement(&req.hrid, &new_hrid).unwrap();
    flush(&mut dir, &mut disk);

    assert!(!on_disk(&disk, &["REQ-001.md"]), "stale file must be deleted on flush");
    assert!(on_disk(&disk, &["SYS-001.md"]));
    let reloaded = reload(Config::default(), &disk);
    assert!(reloaded.tree().find_by_hrid(&new_hrid).is_some());
}

#[test]
fn directory_rename_before_first_flush_leaves_single_file() {
    let mut dir = empty_directory();
    let mut disk = Vec::new();
    let req = dir.add_requirement("REQ", String::new(), &[]).unwrap();
    dir.rename_requirement(&req.hrid, &hrid("SYS-001")).unwrap();
    flush(&mut dir, &mut disk);

    assert!(!on_disk(&disk, &["REQ-001.md"]));
    assert!(on_disk(&disk, &["SYS-001.md"]));
    assert_eq!(disk.len(), 1);
}

#[test]
fn directory_rename_onto_deleted_hrid_keeps_new_file() {
    let mut dir = empty_directory();
    let mut disk = Vec::new();
    let doomed = dir.add_requirement("REQ", String::new(), &[]).unwrap();
    let survivor = dir.add_requirement("REQ", String::new(), &[]).unwrap();
    flush(&mut dir, &mut disk);

    dir.delete_requirement(&doomed.hrid).unwrap();
    dir.rename_requirement(&survivor.hrid, &doomed.hrid).unwrap();
    flush(&mut dir, &mut disk);

    assert!(on_disk(&disk, &["REQ-001.md"]));
    assert!(!on_disk(&disk, &["REQ-002.md"]));
    let reloaded = reload(Config::default(), &disk);
    let view = reloaded.tree().find_by_hrid(&doomed.hrid).unwrap();
    assert_eq!(view.uuid, survivor.uuid());
}

#[test]
fn directory_move_to_same_path_does_not_delete_file() {
    let mut dir = empty_directory();
    let mut disk = Vec::new();
    let req = dir.add_requirement("REQ", String::new(), &[]).unwrap();
    flush(&mut dir, &mut disk);

    let path = dir.path_for(&req.hrid).unwrap();
    dir.move_requirement(&req.hrid, path.clone()).unwrap();
    flush(&mut dir, &mut disk);
    assert!(disk.iter().any(|(p, _)| *p == path), "moving onto itself must not delete the file");
}

#[test]
fn failed_writes_keep_deletions_queued() {
    let mut dir = empty_directory();
    let mut disk = Vec::new();
    let req = dir.add_requirement("REQ", String::new(), &[]).unwrap();
    flush(&mut dir, &mut disk);

    dir.rename_requirement(&req.hrid, &hrid("SYS-001")).unwrap();
    let _ = dir.pending_writes();
    assert!(dir.take_deletions(true).is_empty(), "nothing is removed after a failed write");
    let _ = dir.pending_writes();
    assert_eq!(dir.take_deletions(false), vec![comps(&["REQ-001.md"])]);
}

#[test]
fn update_requirement_changes_content_and_persists() {
    let mut dir = empty_directory();
    let mut disk = Vec::new();
    let req = dir.add_requirement("REQ", "# Old title\n\nOld body".to_string(), &[]).unwrap();
    flush(&mut dir, &mut disk);

    let changed = dir
        .update_requirement(
            &req.hrid,
            Some("New title".to_string()),
            Some("New body".to_string()),
            Some(vec!["tag1".to_string()]),
        )
        .unwrap();
    assert!(changed);
    flush(&mut dir, &mut disk);

    let updated = &disk.iter().find(|(_, r)| r.uuid() == req.uuid()).unwrap().1;
    assert_eq!(updated.title, "New title");
    assert_eq!(updated.body, "New body");
    assert_eq!(updated.tags, vec!["tag1".to_string()]);
    assert_eq!(updated.uuid(), req.uuid());
}

#[test]
fn update_requirement_leaves_omitted_fields_unchanged() {
    let mut dir = empty_directory();
    let mut disk = Vec::new();
    let req = dir.add_requirement("REQ", "# Title\n\nBody".to_string(), &[]).unwrap();
    flush(&mut dir, &mut disk);

    let changed = dir.update_requirement(&req.hrid, Some("Renamed".to_string()), None, None).unwrap();
    assert!(changed);
    flush(&mut dir, &mut disk);

    let updated = &disk.iter().find(|(_, r)| r.uuid() == req.uuid()).unwrap().1;
    assert_eq!(updated.title, "Renamed");
    assert_eq!(updated.body, "Body");
}

#[test]
fn update_requirement_reports_no_change() {
    let mut dir = empty_directory();
    let mut disk = Vec::new();
    let req = dir.add_requirement("REQ", "# Title\n\nBody".to_string(), &[]).unwrap();
    flush(&mut dir, &mut disk);

    let changed = dir.update_requirement(&req.hrid, Some("Title".to_string()), None, None).unwrap();
    assert!(!changed);
    assert!(dir.pending_writes().is_empty());
}

#[test]
fn update_requirement_body_marks_child_links_suspect() {
    let mut dir = empty_directory();
    let mut disk = Vec::new();
    let parent = dir.add_requirement("SYS", "# Parent\n\nOriginal".to_string(), &[]).unwrap();
    let child = dir.add_requirement("USR", "# Child".to_string(), &[]).unwrap();
    dir.link_requirement(&child.hrid, &parent.hrid).unwrap();
    flush(&mut dir, &mut disk);

    let mut dir = reload(Config::default(), &disk);
    assert!(dir.suspect_links().is_empty());

    dir.update_requirement(&parent.hrid, None, Some("Changed".to_string()), None).unwrap();

    let suspects = dir.suspect_links();
    assert_eq!(suspects.len(), 1);
    assert_eq!(suspects[0].child_hrid, child.hrid);
    assert_eq!(suspects[0].parent_hrid, parent.hrid);
}

#[test]
fn update_requirement_unknown_hrid_errors() {
    let mut dir = empty_directory();
    let missing = hrid("REQ-999");
    let result = dir.update_requirement(&missing, Some("Title".to_string()), None, None);
    assert!(matches!(result, Err(DirectoryError::NotFound(ref h)) if *h == missing));
    assert_eq!(result.unwrap_err().to_string(3), "Requirement REQ-999 not found");
}

#[test]
fn delete_requirement_refuses_parent_with_children() {
    let mut dir = empty_directory();
    let parent = dir.add_requirement("SYS", String::new(), &[]).unwrap();
    let child = dir.add_requirement("USR", String::new(), &[]).unwrap();
    dir.link_requirement(&child.hrid, &parent.hrid).unwrap();

    match dir.delete_requirement(&parent.hrid) {
        Err(e @ DirectoryError::HasChildren { .. }) => {
            assert_eq!(e.to_string(3), "Cannot delete SYS-001: requirement has 1 children");
        }
        other => panic!("expected HasChildren, got {other:?}"),
    }
    dir.delete_requirement(&child.hrid).unwrap();
    dir.delete_requirement(&parent.hrid).unwrap();
    assert!(dir.tree().iter().is_empty());
}

#[test]
fn delete_and_orphan_unlinks_children() {
    let mut dir = empty_directory();
    let mut disk = Vec::new();
    let parent = dir.add_requirement("SYS", String::new(), &[]).unwrap();
    let child = dir.add_requirement("USR", String::new(), &[]).unwrap();
    dir.link_requirement(&child.hrid, &parent.hrid).unwrap();
    flush(&mut dir, &mut disk);

    dir.delete_and_orphan(&parent.hrid).unwrap();
    flush(&mut dir, &mut disk);
    assert!(!on_disk(&disk, &["SYS-001.md"]));
    let orphan = &disk.iter().find(|(_, r)| r.uuid() == child.uuid()).unwrap().1;
    assert!(orphan.parents.is_empty());
}

#[test]
fn lineage_queries_follow_links() {
    let mut dir = empty_directory();
    let top = dir.add_requirement("SYS", String::new(), &[]).unwrap();
    let mid = dir.add_requirement("USR", String::new(), &[]).unwrap();
    let low = dir.add_requirement("TST", String::new(), &[]).unwrap();
    dir.link_requirement(&mid.hrid, &top.hrid).unwrap();
    dir.link_requirement(&low.hrid, &mid.hrid).unwrap();

    assert_eq!(dir.children_of(&top.hrid), vec![mid.hrid.clone()]);
    assert_eq!(dir.ancestors_of(&low.hrid), vec![top.hrid.clone(), mid.hrid.clone()]);
    assert_eq!(dir.descendants_of(&top.hrid), vec![low.hrid.clone(), mid.hrid.clone()]);
    assert_eq!(dir.find_orphaned_descendants(&top.hrid).len(), 3);
}

#[test]
fn accept_suspect_link_refreshes_fingerprint() {
    let mut dir = empty_directory();
    let parent = dir.add_requirement("SYS", "# Parent\n\nOne".to_string(), &[]).unwrap();
    let child = dir.add_requirement("USR", String::new(), &[]).unwrap();
    dir.link_requirement(&child.hrid, &parent.hrid).unwrap();
    dir.update_requirement(&parent.hrid, None, Some("Two".to_string()), None).unwrap();
    assert_eq!(dir.suspect_links().len(), 1);

    let first = dir.accept_suspect_link(child.hrid.clone(), parent.hrid.clone()).unwrap();
    assert_eq!(first, requiem_core::directory::AcceptResult::Updated);
    let second = dir.accept_suspect_link(child.hrid.clone(), parent.hrid.clone()).unwrap();
    assert_eq!(second, requiem_core::directory::AcceptResult::AlreadyUpToDate);
    assert!(dir.suspect_links().is_empty());

    let err = dir.accept_suspect_link(hrid("USR-009"), parent.hrid.clone()).unwrap_err();
    assert_eq!(err.to_string(), "child requirement USR-009 not found");
}

#[test]
fn load_new_defaults_when_config_missing() {
    let dir = Directory::load(Config::found_or_default(None), Vec::new(), Vec::new()).unwrap();
    let config = dir.config();
    let default = Config::default();
    assert_eq!(config.digits(), default.digits());
    assert_eq!(config.allowed_kinds(), default.allowed_kinds());
    assert_eq!(config.kind_metadata().len(), default.kind_metadata().len());
    assert_eq!(config.allow_unrecognised, default.allow_unrecognised);
    assert_eq!(config.subfolders_are_namespaces, default.subfolders_are_namespaces);
}

/// A requirement with the given parents, read as from a file.
fn linked(text: &str, uuid: u128, parents: &[(&str, u128)]) -> Requirement {
    let mut r = Requirement::new(hrid(text), String::new(), String::new());
    r.uuid = uuid;
    r.parents = parents
        .iter()
        .map(|(h, u)| (*u, requiem_core::requirement::Parent { hrid: hrid(h), fingerprint: String::new() }))
        .collect();
    r
}

#[test]
fn orphaned_descendants_leave_a_cycle_that_keeps_its_parents() {
    // C1 has parents R and C2; C2 has parent C1. Deleting R leaves C1 with
    // C2 as a parent, so only R goes.
    let loaded = vec![
        (linked("SYS-001", 1, &[]), comps(&["SYS-001.md"])),
        (linked("USR-001", 2, &[("SYS-001", 1), ("USR-002", 3)]), comps(&["USR-001.md"])),
        (linked("USR-002", 3, &[("USR-001", 2)]), comps(&["USR-002.md"])),
    ];
    let dir = Directory::load(Config::default(), loaded, Vec::new()).unwrap();
    assert_eq!(dir.find_orphaned_descendants(&hrid("SYS-001")), vec![hrid("SYS-001")]);
}

#[test]
fn orphaned_descendants_take_children_whose_parents_all_go() {
    // M has parents R and X; X has parent R. Deleting R takes X, then M.
    let loaded = vec![
        (linked("SYS-001", 1, &[]), comps(&["SYS-001.md"])),
        (linked("SYS-002", 2, &[("SYS-001", 1)]), comps(&["SYS-002.md"])),
        (linked("USR-001", 3, &[("SYS-001", 1), ("SYS-002", 2)]), comps(&["USR-001.md"])),
        (linked("USR-002", 4, &[("SYS-002", 2), ("TST-001", 5)]), comps(&["USR-002.md"])),
        (linked("TST-001", 5, &[]), comps(&["TST-001.md"])),
    ];
    let dir = Directory::load(Config::default(), loaded, Vec::new()).unwrap();
    assert_eq!(
        dir.find_orphaned_descendants(&hrid("SYS-001")),
        vec![hrid("SYS-001"), hrid("SYS-002"), hrid("USR-001")]
    );
    assert!(dir.find_orphaned_descendants(&hrid("SYS-009")).is_empty());
}

#[test]
fn new_ignoring_skips_listed_files_under_strict_config() {
    let loaded = vec![(linked("USR-001", 1, &[]), comps(&["USR-001.md"]))];
    let unrecognised = vec![(comps(&["SUMMARY.md"]), "not a requirement".to_string())];
    let root = comps(&["/", "home", "req"]);

    assert!(matches!(
        Directory::new_ignoring(Config::default(), &root, loaded.clone(), unrecognised.clone(), &Vec::new()),
        Err(DirectoryLoadError::UnrecognisedFiles(_))
    ));

    // The ignored file may be named by a route through another folder.
    let ignored = vec![comps(&["/", "home", "req", "subdir", "..", ".", "SUMMARY.md"])];
    let dir = Directory::new_ignoring(Config::default(), &root, loaded, unrecognised, &ignored).unwrap();
    assert_eq!(dir.tree().iter().len(), 1);
}
