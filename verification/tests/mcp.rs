use requiem_core::config::Config;
use requiem_core::directory::Directory;
use requiem_core::mcp::{
    create_requirement, delete_requirement, get_ancestors, get_children, get_descendants, get_parents,
    get_requirement, link_requirement, list_requirement_kinds, list_requirements, parse_hrid_param, review,
    review_requirement, unlink_requirement, update_requirement, CreateRequirementParams, DeleteMode,
    DeleteRequirementParams, GetChildrenParams, GetLineageParams, GetRequirementParams, LinkRequirementParams,
    ListRequirementsParams, ReviewParams, ReviewRequirementParams, ToolErrorKind, UnlinkRequirementParams,
    UpdateRequirementParams, DetailValue,
};
use requiem_core::mcp::{create_requirement_kind, CreateRequirementKindParams};
use requiem_core::requirement::Requirement;

fn empty_directory() -> Directory {
    Directory::load(Config::default(), Vec::new(), Vec::new()).unwrap()
}

/// Writes the pending files into `disk` and removes the queued ones.
fn flush(dir: &mut Directory, disk: &mut Vec<(Vec<String>, Requirement)>) {
    for (uuid, req, path) in dir.pending_writes() {
        disk.retain(|(p, _)| *p != path);
        disk.push((path, req));
        dir.record_written(uuid);
    }
    for gone in dir.take_deletions(false) {
        disk.retain(|(p, _)| *p != gone);
    }
}

fn file_exists(disk: &[(Vec<String>, Requirement)], hrid: &str) -> bool {
    let name = vec![format!("{hrid}.md")];
    disk.iter().any(|(p, _)| *p == name)
}

fn create(dir: &mut Directory, kind: &str, title: &str, parents: Vec<String>) -> String {
    let details = create_requirement(
        dir,
        &CreateRequirementParams {
            namespace: vec![],
            kind: kind.to_string(),
            title: title.to_string(),
            body: "Body".to_string(),
            parents,
        },
        &[],
    )
    .expect("create_requirement should succeed");
    details.hrid
}

#[test]
fn update_requirement_edits_content_in_place() {
    let mut dir = empty_directory();
    let mut disk = Vec::new();
    let hrid = create(&mut dir, "REQ", "Old title", vec![]);
    flush(&mut dir, &mut disk);

    let result = update_requirement(
        &mut dir,
        &UpdateRequirementParams {
            hrid: hrid.clone(),
            title: Some("New title".to_string()),
            body: Some("New body".to_string()),
            tags: Some(vec!["safety".to_string()]),
        },
    )
    .expect("update should succeed");
    assert!(result.changed);
    assert_eq!(result.requirement.title, "New title");
    assert_eq!(result.requirement.body, "New body");
    assert_eq!(result.requirement.tags[0], "safety");

    flush(&mut dir, &mut disk);
    let stored = &disk.iter().find(|(p, _)| *p == vec![format!("{hrid}.md")]).unwrap().1;
    assert_eq!(stored.body, "New body");

    let result = update_requirement(
        &mut dir,
        &UpdateRequirementParams {
            hrid,
            title: Some("New title".to_string()),
            body: Some("New body".to_string()),
            tags: Some(vec!["safety".to_string()]),
        },
    )
    .expect("no-op update should succeed");
    assert!(!result.changed);
}

#[test]
fn update_requirement_requires_at_least_one_field() {
    let mut dir = empty_directory();
    let hrid = create(&mut dir, "REQ", "Title", vec![]);

    let result = update_requirement(&mut dir, &UpdateRequirementParams { hrid, title: None, body: None, tags: None });
    assert!(result.is_err());
    assert_eq!(result.unwrap_err().kind, ToolErrorKind::InvalidParams);
}

#[test]
fn update_requirement_normalises_tags() {
    let mut dir = empty_directory();
    let hrid = create(&mut dir, "REQ", "Title", vec![]);
    let result = update_requirement(
        &mut dir,
        &UpdateRequirementParams {
            hrid,
            title: None,
            body: None,
            tags: Some(vec![" b ".to_string(), "a".to_string(), "b".to_string()]),
        },
    )
    .unwrap();
    assert_eq!(result.requirement.tags, vec!["a".to_string(), "b".to_string()]);
}

#[test]
fn link_and_unlink_round_trip() {
    let mut dir = empty_directory();
    let parent = create(&mut dir, "SYS", "Parent", vec![]);
    let child = create(&mut dir, "USR", "Child", vec![]);

    let result = link_requirement(&mut dir, &LinkRequirementParams { child: child.clone(), parent: parent.clone() })
        .expect("link should succeed");
    assert!(!result.already_linked);

    let result = link_requirement(&mut dir, &LinkRequirementParams { child: child.clone(), parent: parent.clone() })
        .expect("relink should succeed");
    assert!(result.already_linked);

    let result = link_requirement(&mut dir, &LinkRequirementParams { child: parent.clone(), parent: child.clone() });
    assert!(result.is_err(), "cycle-forming link must be rejected");

    unlink_requirement(&mut dir, &UnlinkRequirementParams { child: child.clone(), parent: parent.clone() })
        .expect("unlink should succeed");

    let result = unlink_requirement(&mut dir, &UnlinkRequirementParams { child, parent });
    assert!(result.is_err());
}

#[test]
fn delete_refuses_requirement_with_children_by_default() {
    let mut dir = empty_directory();
    let parent = create(&mut dir, "SYS", "Parent", vec![]);
    let _child = create(&mut dir, "USR", "Child", vec![parent.clone()]);

    let result =
        delete_requirement(&mut dir, &DeleteRequirementParams { hrid: parent, mode: DeleteMode::Refuse, dry_run: false });
    assert!(result.is_err());
}

#[test]
fn delete_cascade_removes_orphaned_descendants() {
    let mut dir = empty_directory();
    let mut disk = Vec::new();
    let parent = create(&mut dir, "SYS", "Parent", vec![]);
    let child = create(&mut dir, "USR", "Child", vec![parent.clone()]);
    flush(&mut dir, &mut disk);

    let result = delete_requirement(
        &mut dir,
        &DeleteRequirementParams { hrid: parent.clone(), mode: DeleteMode::Cascade, dry_run: true },
    )
    .expect("dry run should succeed");
    assert!(result.dry_run);
    assert_eq!(result.deleted.len(), 2);
    flush(&mut dir, &mut disk);
    assert!(file_exists(&disk, &parent));

    let result = delete_requirement(
        &mut dir,
        &DeleteRequirementParams { hrid: parent.clone(), mode: DeleteMode::Cascade, dry_run: false },
    )
    .expect("cascade delete should succeed");
    assert_eq!(result.deleted.len(), 2);
    flush(&mut dir, &mut disk);
    assert!(!file_exists(&disk, &parent));
    assert!(!file_exists(&disk, &child));
}

#[test]
fn delete_orphan_keeps_children() {
    let mut dir = empty_directory();
    let mut disk = Vec::new();
    let parent = create(&mut dir, "SYS", "Parent", vec![]);
    let child = create(&mut dir, "USR", "Child", vec![parent.clone()]);
    flush(&mut dir, &mut disk);

    let result = delete_requirement(
        &mut dir,
        &DeleteRequirementParams { hrid: parent.clone(), mode: DeleteMode::Orphan, dry_run: false },
    )
    .expect("orphan delete should succeed");
    assert_eq!(result.deleted.len(), 1);
    assert_eq!(result.unlinked_children[0], child);
    flush(&mut dir, &mut disk);
    assert!(!file_exists(&disk, &parent));
    assert!(file_exists(&disk, &child));
}

#[test]
fn parse_hrid_param_reports_invalid_input() {
    assert_eq!(parse_hrid_param("REQ-001").unwrap().to_string_with_digits(3), "REQ-001");
    let err = parse_hrid_param("not an hrid").unwrap_err();
    assert_eq!(err.kind, ToolErrorKind::InvalidParams);
}

#[test]
fn get_requirement_reports_details_and_missing() {
    let mut dir = empty_directory();
    let parent = create(&mut dir, "SYS", "Parent", vec![]);
    let child = create(&mut dir, "USR", "Child", vec![parent.clone()]);

    let details = get_requirement(&dir, &GetRequirementParams { hrid: child.clone() }).unwrap();
    assert_eq!(details.title, "Child");
    assert_eq!(details.body, "Body");
    assert_eq!(details.parents, vec![parent.clone()]);
    let details = get_requirement(&dir, &GetRequirementParams { hrid: parent.clone() }).unwrap();
    assert_eq!(details.children, vec![child.clone()]);

    let err = get_requirement(&dir, &GetRequirementParams { hrid: "USR-042".to_string() }).unwrap_err();
    assert_eq!(err.kind, ToolErrorKind::ResourceNotFound);
}

#[test]
fn lineage_tools_walk_links() {
    let mut dir = empty_directory();
    let top = create(&mut dir, "SYS", "Top", vec![]);
    let mid = create(&mut dir, "USR", "Mid", vec![top.clone()]);
    let low = create(&mut dir, "TST", "Low", vec![mid.clone()]);

    let children = get_children(&dir, &GetChildrenParams { hrid: top.clone() }).unwrap();
    assert_eq!(children.children, vec![mid.clone()]);
    let parents = get_parents(&dir, &GetLineageParams { hrid: low.clone() }).unwrap();
    assert_eq!(parents.parents, vec![mid.clone()]);
    let ancestors = get_ancestors(&dir, &GetLineageParams { hrid: low.clone() }).unwrap();
    assert_eq!(ancestors.ancestors, vec![top.clone(), mid.clone()]);
    let descendants = get_descendants(&dir, &GetLineageParams { hrid: top.clone() }).unwrap();
    assert_eq!(descendants.descendants, vec![low.clone(), mid.clone()]);
}

#[test]
fn list_tools_filter_by_kind_and_query() {
    let mut dir = empty_directory();
    create(&mut dir, "SYS", "Braking distance", vec![]);
    create(&mut dir, "SYS", "Steering", vec![]);
    create(&mut dir, "USR", "Brake pedal", vec![]);

    let kinds = list_requirement_kinds(&dir);
    let names: Vec<String> = kinds.kinds.iter().map(|k| k.kind.clone()).collect();
    assert_eq!(names, vec!["SYS".to_string(), "USR".to_string()]);

    let listed = list_requirements(&dir, &ListRequirementsParams { kind: "sys".to_string(), query: None }).unwrap();
    assert_eq!(listed.kind, "SYS");
    assert_eq!(listed.results.len(), 2);

    let listed =
        list_requirements(&dir, &ListRequirementsParams { kind: "SYS".to_string(), query: Some("BRAK".to_string()) })
            .unwrap();
    assert_eq!(listed.results.len(), 1);
    assert_eq!(listed.results[0].hrid, "SYS-001");
}

#[test]
fn review_tools_report_and_accept_suspect_links() {
    let mut dir = empty_directory();
    let parent = create(&mut dir, "SYS", "Parent", vec![]);
    let child = create(&mut dir, "USR", "Child", vec![parent.clone()]);
    assert!(review(&dir, &ReviewParams { kind: None }).suspect_links.is_empty());

    update_requirement(
        &mut dir,
        &UpdateRequirementParams { hrid: parent.clone(), title: None, body: Some("Changed".to_string()), tags: None },
    )
    .unwrap();
    let report = review(&dir, &ReviewParams { kind: None });
    assert_eq!(report.suspect_links.len(), 1);
    assert_eq!(report.suspect_links[0].child, child);
    assert_eq!(report.suspect_links[0].parent, parent);

    let accepted =
        review_requirement(&mut dir, &ReviewRequirementParams { child: child.clone(), parent: parent.clone() }).unwrap();
    assert_eq!(accepted.status, "updated");
    let again = review_requirement(&mut dir, &ReviewRequirementParams { child, parent }).unwrap();
    assert_eq!(again.status, "already_up_to_date");
    assert!(review(&dir, &ReviewParams { kind: None }).suspect_links.is_empty());
}

#[test]
fn create_refuses_bad_input_without_changing_the_store() {
    let mut dir = empty_directory();
    let blank = create_requirement(
        &mut dir,
        &CreateRequirementParams { namespace: vec![], kind: "  ".to_string(), title: "T".to_string(), body: String::new(), parents: vec![] },
        &[],
    )
    .unwrap_err();
    assert_eq!(blank.kind, ToolErrorKind::InvalidParams);
    assert_eq!(blank.message, "`kind` is required");

    let bad_parent = create_requirement(
        &mut dir,
        &CreateRequirementParams { namespace: vec![], kind: "USR".to_string(), title: "T".to_string(), body: String::new(), parents: vec!["nope".to_string()] },
        &[],
    )
    .unwrap_err();
    assert_eq!(bad_parent.kind, ToolErrorKind::InvalidParams);
    assert_eq!(bad_parent.message, "invalid HRID provided");

    let missing = create_requirement(
        &mut dir,
        &CreateRequirementParams { namespace: vec![], kind: "USR".to_string(), title: "T".to_string(), body: String::new(), parents: vec!["SYS-009".to_string()] },
        &[],
    )
    .unwrap_err();
    assert_eq!(missing.kind, ToolErrorKind::ResourceNotFound);
    assert_eq!(missing.message, "parent requirement not found");

    let bad_kind = create_requirement(
        &mut dir,
        &CreateRequirementParams { namespace: vec![], kind: "u1".to_string(), title: "T".to_string(), body: String::new(), parents: vec![] },
        &[],
    )
    .unwrap_err();
    assert_eq!(bad_kind.message, "invalid kind or namespace");
    assert!(dir.pending_writes().is_empty());
}

#[test]
fn create_refuses_a_kind_the_configuration_does_not_allow() {
    let mut config = Config::default();
    config.add_kind("USR");
    let mut dir = Directory::load(config, Vec::new(), Vec::new()).unwrap();
    let err = create_requirement(
        &mut dir,
        &CreateRequirementParams { namespace: vec![], kind: "sys".to_string(), title: "T".to_string(), body: String::new(), parents: vec![] },
        &[],
    )
    .unwrap_err();
    assert_eq!(err.kind, ToolErrorKind::InvalidParams);
    assert_eq!(err.message, "kind is not allowed by configuration");
    assert!(dir.pending_writes().is_empty());
}

#[test]
fn delete_refusal_names_the_children() {
    let mut dir = empty_directory();
    let parent = create(&mut dir, "SYS", "Parent", vec![]);
    let child = create(&mut dir, "USR", "Child", vec![parent.clone()]);
    let err = delete_requirement(&mut dir, &DeleteRequirementParams { hrid: parent.clone(), mode: DeleteMode::Refuse, dry_run: true })
        .unwrap_err();
    assert_eq!(err.kind, ToolErrorKind::InvalidParams);
    assert_eq!(err.data.len(), 2);
    match &err.data[1].1 {
        DetailValue::List(v) => assert_eq!(v, &vec![child]),
        _ => panic!("children expected"),
    }
}

#[test]
fn update_marks_the_requirement_for_rewriting() {
    let mut dir = empty_directory();
    let mut disk = Vec::new();
    let hrid = create(&mut dir, "REQ", "Old", vec![]);
    flush(&mut dir, &mut disk);
    assert!(dir.pending_writes().is_empty());
    update_requirement(
        &mut dir,
        &UpdateRequirementParams { hrid: hrid.clone(), title: Some("New".to_string()), body: None, tags: None },
    )
    .unwrap();
    let writes = dir.pending_writes();
    assert_eq!(writes.len(), 1);
    assert_eq!(writes[0].1.title, "New");
}

#[test]
fn create_requirement_kind_adds_describes_and_clears() {
    let mut config = Config::default();

    let added = create_requirement_kind(
        &mut config,
        &CreateRequirementKindParams { kind: " usr ".to_string(), description: Some(" User needs ".to_string()) },
    )
    .unwrap();
    assert_eq!(added.kind, "USR");
    assert!(added.added);
    assert_eq!(added.description.as_deref(), Some("User needs"));
    assert_eq!(added.allowed_kinds, vec!["USR".to_string()]);

    let again = create_requirement_kind(
        &mut config,
        &CreateRequirementKindParams { kind: "USR".to_string(), description: None },
    )
    .unwrap();
    assert!(!again.added);
    assert_eq!(again.description.as_deref(), Some("User needs"));

    let cleared = create_requirement_kind(
        &mut config,
        &CreateRequirementKindParams { kind: "usr".to_string(), description: Some("  ".to_string()) },
    )
    .unwrap();
    assert!(!cleared.added);
    assert_eq!(cleared.description, None);
    assert_eq!(cleared.allowed_kinds, vec!["USR".to_string()]);

    let err = create_requirement_kind(
        &mut config,
        &CreateRequirementKindParams { kind: "   ".to_string(), description: None },
    )
    .unwrap_err();
    assert_eq!(err.kind, ToolErrorKind::InvalidParams);
    assert_eq!(err.message, "`kind` is required");
    assert_eq!(config.allowed_kinds().to_vec(), vec!["USR".to_string()]);
}

#[test]
fn delete_cascade_lists_deleted_and_unlinked_in_order() {
    let mut dir = empty_directory();
    let mut disk = Vec::new();
    let top = create(&mut dir, "SYS", "Top", vec![]);
    let other = create(&mut dir, "SYS", "Other", vec![]);
    let b = create(&mut dir, "USR", "B", vec![top.clone()]);
    let a = create(&mut dir, "TST", "A", vec![top.clone()]);
    let kept = create(&mut dir, "USR", "Kept", vec![top.clone(), other.clone()]);
    flush(&mut dir, &mut disk);

    let result = delete_requirement(
        &mut dir,
        &DeleteRequirementParams { hrid: top.clone(), mode: DeleteMode::Cascade, dry_run: false },
    )
    .expect("cascade delete should succeed");
    assert_eq!(result.deleted, vec![top.clone(), a.clone(), b.clone()]);
    assert_eq!(result.unlinked_children, vec![kept.clone()]);
    flush(&mut dir, &mut disk);
    assert!(file_exists(&disk, &kept));
    assert!(!file_exists(&disk, &a));
}
