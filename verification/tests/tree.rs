use requiem_core::hrid::Hrid;
use requiem_core::requirement::Requirement;
use requiem_core::tree::{LinkError, LinkRequirementError, Tree, UnlinkError};

fn req(text: &str, title: &str) -> Requirement {
    Requirement::new(text.parse().unwrap(), title.to_string(), String::new())
}

fn hrid(text: &str) -> Hrid {
    text.parse().unwrap()
}

#[test]
fn test_upsert_parent_link_errors_on_missing_parent() {
    let mut tree = Tree::default();

    let child_req = req("USR-001", "Child requirement");
    let child_uuid = child_req.uuid();
    tree.insert(child_req).unwrap();

    let missing_parent_uuid = uuid::Uuid::new_v4().as_u128();

    let result =
        tree.upsert_parent_link(child_uuid, missing_parent_uuid, "fingerprint".to_string());

    assert!(result.is_err(), "Expected error for missing parent");
    match result {
        Err(LinkError::ParentNotFound(uuid)) => {
            assert_eq!(uuid, missing_parent_uuid);
        }
        _ => panic!("Expected ParentNotFound error, got: {result:?}"),
    }
}

#[test]
fn test_upsert_parent_link_errors_on_missing_child() {
    let mut tree = Tree::default();

    let parent_req = req("SYS-001", "Parent requirement");
    let parent_uuid = parent_req.uuid();
    tree.insert(parent_req).unwrap();

    let missing_child_uuid = uuid::Uuid::new_v4().as_u128();

    let result =
        tree.upsert_parent_link(missing_child_uuid, parent_uuid, "fingerprint".to_string());

    assert!(result.is_err(), "Expected error for missing child");
    match result {
        Err(LinkError::ChildNotFound(uuid)) => {
            assert_eq!(uuid, missing_child_uuid);
        }
        _ => panic!("Expected ChildNotFound error, got: {result:?}"),
    }
}

#[test]
fn test_upsert_parent_link_succeeds_when_both_exist() {
    let mut tree = Tree::default();

    let parent_req = req("SYS-001", "Parent requirement");
    let parent_uuid = parent_req.uuid();
    tree.insert(parent_req).unwrap();

    let child_req = req("USR-001", "Child requirement");
    let child_uuid = child_req.uuid();
    tree.insert(child_req).unwrap();

    let result = tree.upsert_parent_link(child_uuid, parent_uuid, "test-fingerprint".to_string());

    assert!(result.is_ok(), "Expected success when both requirements exist");
    assert!(!result.unwrap(), "Should return false for new link (not a replacement)");

    let parents = tree.parents(child_uuid);
    assert_eq!(parents.len(), 1, "Child should have one parent");
    assert_eq!(parents[0].0, parent_uuid, "Parent UUID should match");
}

#[test]
fn test_detect_cycles_finds_direct_cycle() {
    let mut tree = Tree::default();

    let req_a = req("USR-001", "A");
    let uuid_a = req_a.uuid();
    tree.insert(req_a).unwrap();

    let req_b = req("USR-002", "B");
    let uuid_b = req_b.uuid();
    tree.insert(req_b).unwrap();

    tree.upsert_parent_link(uuid_a, uuid_b, "fingerprint".to_string()).unwrap();
    tree.upsert_parent_link(uuid_b, uuid_a, "fingerprint".to_string()).unwrap();

    let cycles = tree.detect_cycles();
    assert!(!cycles.is_empty(), "Should detect at least one cycle");
    assert_eq!(cycles.len(), 1, "Should detect exactly one cycle (A->B->A)");
}

#[test]
fn test_check_would_create_cycle_detects_prevention() {
    let mut tree = Tree::default();

    let req_a = req("USR-001", "A");
    let uuid_a = req_a.uuid();
    tree.insert(req_a).unwrap();

    let req_b = req("USR-002", "B");
    let uuid_b = req_b.uuid();
    tree.insert(req_b).unwrap();

    let req_c = req("USR-003", "C");
    let uuid_c = req_c.uuid();
    tree.insert(req_c).unwrap();

    let req_d = req("USR-004", "D");
    let uuid_d = req_d.uuid();
    tree.insert(req_d).unwrap();

    tree.upsert_parent_link(uuid_a, uuid_b, "fingerprint".to_string()).unwrap();
    tree.upsert_parent_link(uuid_b, uuid_c, "fingerprint".to_string()).unwrap();

    let result = tree.check_would_create_cycle(uuid_c, uuid_a);
    assert!(result.is_err(), "Should detect that C->A would create a cycle");

    let result = tree.check_would_create_cycle(uuid_c, uuid_b);
    assert!(result.is_err(), "Should detect that C->B would create a cycle");

    let result = tree.check_would_create_cycle(uuid_d, uuid_a);
    assert!(result.is_ok(), "Should allow D->A since it doesn't create a cycle");
}

#[test]
fn test_check_would_create_cycle_simple_reverse() {
    let mut tree = Tree::default();

    let req_a = req("USR-001", "A");
    let uuid_a = req_a.uuid();
    tree.insert(req_a).unwrap();

    let req_b = req("USR-002", "B");
    let uuid_b = req_b.uuid();
    tree.insert(req_b).unwrap();

    tree.upsert_parent_link(uuid_b, uuid_a, "fp".to_string()).unwrap();

    let result = tree.check_would_create_cycle(uuid_a, uuid_b);
    assert!(result.is_err(), "Should detect that A->B would create cycle (B->A already exists)");
}

#[test]
fn test_check_would_create_cycle_detects_ancestor_to_descendant() {
    let mut tree = Tree::default();

    let req_a = req("USR-001", "A");
    let uuid_a = req_a.uuid();
    tree.insert(req_a).unwrap();

    let req_b = req("USR-002", "B");
    let uuid_b = req_b.uuid();
    tree.insert(req_b).unwrap();

    let req_c = req("USR-003", "C");
    let uuid_c = req_c.uuid();
    tree.insert(req_c).unwrap();

    let req_d = req("USR-004", "D");
    let uuid_d = req_d.uuid();
    tree.insert(req_d).unwrap();

    tree.upsert_parent_link(uuid_a, uuid_b, "fp".to_string()).unwrap();
    tree.upsert_parent_link(uuid_b, uuid_c, "fp".to_string()).unwrap();
    tree.upsert_parent_link(uuid_c, uuid_d, "fp".to_string()).unwrap();

    let result = tree.check_would_create_cycle(uuid_d, uuid_a);
    assert!(result.is_err(), "Should detect that D->A would create cycle (A->B->C->D->A)");
}

#[test]
fn cycles_equal_detects_wrapped_rotations() {
    fn cycle(ids: &[&str]) -> Vec<Hrid> {
        ids.iter().map(|s| s.parse().unwrap()).collect()
    }

    let from_a = cycle(&["USR-001", "USR-002", "USR-003", "USR-001"]);
    let from_b = cycle(&["USR-002", "USR-003", "USR-001", "USR-002"]);
    let from_c = cycle(&["USR-003", "USR-001", "USR-002", "USR-003"]);
    assert!(Tree::cycles_equal(&from_a, &from_b));
    assert!(Tree::cycles_equal(&from_a, &from_c));

    let reversed = cycle(&["USR-001", "USR-003", "USR-002", "USR-001"]);
    assert!(!Tree::cycles_equal(&from_a, &reversed));

    assert!(Tree::cycles_equal(
        &cycle(&["USR-001", "USR-001"]),
        &cycle(&["USR-001", "USR-001"])
    ));
    assert!(!Tree::cycles_equal(
        &cycle(&["USR-001", "USR-001"]),
        &cycle(&["USR-002", "USR-002"])
    ));
}

#[test]
fn detect_cycles_survives_deep_chains() {
    const DEPTH: usize = 20_000;

    let mut tree = Tree::default();
    let mut uuids = Vec::with_capacity(DEPTH);
    for i in 1..=DEPTH {
        let req = Requirement::new(
            format!("USR-{i}").parse().unwrap(),
            String::new(),
            String::new(),
        );
        uuids.push(req.uuid());
        tree.insert(req).unwrap();
    }
    for pair in uuids.windows(2) {
        tree.upsert_parent_link(pair[0], pair[1], "fp".to_string()).unwrap();
    }

    assert!(tree.detect_cycles().is_empty());
}

#[test]
fn detect_cycles_reports_the_cycle_members() {
    let mut tree = Tree::default();
    let a = req("USR-001", "A");
    let b = req("USR-002", "B");
    let c = req("USR-003", "C");
    let (ua, ub, uc) = (a.uuid(), b.uuid(), c.uuid());
    tree.insert(a).unwrap();
    tree.insert(b).unwrap();
    tree.insert(c).unwrap();
    tree.upsert_parent_link(ua, ub, "fp".to_string()).unwrap();
    tree.upsert_parent_link(ub, uc, "fp".to_string()).unwrap();
    assert!(tree.detect_cycles().is_empty());
    tree.upsert_parent_link(uc, ua, "fp".to_string()).unwrap();
    let cycles = tree.detect_cycles();
    assert_eq!(cycles.len(), 1);
    let expected = vec![hrid("USR-001"), hrid("USR-002"), hrid("USR-003"), hrid("USR-001")];
    assert!(Tree::cycles_equal(&cycles[0], &expected));
}

#[test]
fn link_requirement_refuses_a_cycle_and_keeps_the_tree() {
    let mut tree = Tree::default();
    tree.insert(req("USR-001", "A")).unwrap();
    tree.insert(req("SYS-001", "B")).unwrap();
    let outcome = tree.link_requirement(&hrid("USR-001"), &hrid("SYS-001")).unwrap();
    assert!(!outcome.already_linked);
    let again = tree.link_requirement(&hrid("USR-001"), &hrid("SYS-001")).unwrap();
    assert!(again.already_linked);
    match tree.link_requirement(&hrid("SYS-001"), &hrid("USR-001")) {
        Err(LinkRequirementError::WouldCreateCycle(_)) => {}
        other => panic!("expected a cycle error, got {other:?}"),
    }
    assert!(tree.detect_cycles().is_empty());
    match tree.link_requirement(&hrid("TST-001"), &hrid("SYS-001")) {
        Err(LinkRequirementError::ChildNotFound(h)) => assert_eq!(h, hrid("TST-001")),
        other => panic!("expected a missing child, got {other:?}"),
    }
}

#[test]
fn unlink_removes_the_link_and_reports_missing_links() {
    let mut tree = Tree::default();
    tree.insert(req("USR-001", "A")).unwrap();
    tree.insert(req("SYS-001", "B")).unwrap();
    tree.link_requirement(&hrid("USR-001"), &hrid("SYS-001")).unwrap();
    let child = tree.uuid_for_hrid(&hrid("USR-001")).unwrap();
    assert_eq!(tree.unlink_requirement(&hrid("USR-001"), &hrid("SYS-001")).unwrap(), child);
    assert!(tree.parents(child).is_empty());
    let err = tree.unlink_requirement(&hrid("USR-001"), &hrid("SYS-001")).unwrap_err();
    assert!(matches!(err, UnlinkError::NotLinked { .. }));
    assert_eq!(err.to_string(), "No link exists between USR-001 and SYS-001");
}

#[test]
fn rename_updates_links_that_point_at_the_renamed_requirement() {
    let mut tree = Tree::default();
    tree.insert(req("USR-001", "A")).unwrap();
    tree.insert(req("SYS-001", "B")).unwrap();
    tree.link_requirement(&hrid("USR-001"), &hrid("SYS-001")).unwrap();
    let (renamed, children) = tree.rename_requirement(&hrid("SYS-001"), &hrid("SYS-002")).unwrap();
    assert_eq!(tree.hrid(renamed), Some(&hrid("SYS-002")));
    let child = tree.uuid_for_hrid(&hrid("USR-001")).unwrap();
    assert_eq!(children, vec![child]);
    assert_eq!(tree.parents(child), vec![(renamed, tree.requirement(renamed).unwrap().fingerprint())]);
    assert!(tree.check_hrid_drift().is_empty());
    let err = tree.rename_requirement(&hrid("SYS-009"), &hrid("SYS-003")).unwrap_err();
    assert_eq!(err.to_string(), "Requirement SYS-009 not found");
}

#[test]
fn changed_parent_makes_link_suspect_until_accepted() {
    let mut tree = Tree::default();
    tree.insert(req("USR-001", "A")).unwrap();
    tree.insert(req("SYS-001", "B")).unwrap();
    let outcome = tree.link_requirement(&hrid("USR-001"), &hrid("SYS-001")).unwrap();
    assert!(tree.suspect_links().is_empty());
    tree.update_requirement_content(outcome.parent_uuid, Some("Changed".to_string()), None, None)
        .unwrap();
    let suspects = tree.suspect_links();
    assert_eq!(suspects.len(), 1);
    assert_eq!(suspects[0].child_uuid, outcome.child_uuid);
    assert!(tree.accept_suspect_link(outcome.child_uuid, outcome.parent_uuid).unwrap());
    assert!(tree.suspect_links().is_empty());
    assert!(!tree.accept_suspect_link(outcome.child_uuid, outcome.parent_uuid).unwrap());
}

#[test]
fn remove_requirement_forgets_it() {
    let mut tree = Tree::default();
    let a = req("USR-001", "A");
    let ua = a.uuid();
    tree.insert(a).unwrap();
    assert!(tree.remove_requirement(ua).is_ok());
    assert!(tree.requirement(ua).is_none());
    assert!(tree.remove_requirement(ua).is_err());
    assert!(tree.find_by_hrid(&hrid("USR-001")).is_none());
}

#[test]
fn next_index_follows_the_highest_id() {
    let mut tree = Tree::default();
    tree.insert(req("USR-001", "A")).unwrap();
    tree.insert(req("USR-004", "B")).unwrap();
    tree.insert(req("ns-USR-009", "C")).unwrap();
    let h = hrid("USR-001");
    assert_eq!(tree.next_index(h.namespace_segments(), h.kind_string()), 5);
    let other = hrid("SYS-001");
    assert_eq!(tree.next_index(other.namespace_segments(), other.kind_string()), 1);
}
