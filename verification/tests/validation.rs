use requiem_core::validation::{
    categorize_link_issues, LinkIssue, PathIssue, SuspectIssue, ValidationResult,
};

fn sample() -> ValidationResult {
    ValidationResult {
        paths: vec![PathIssue {
            hrid: "USR-001".to_string(),
            current_path: "old/USR-001.md".to_string(),
            expected_path: "USR-001.md".to_string(),
        }],
        links: vec![
            LinkIssue::StaleHrid { child: "USR-002".to_string() },
            LinkIssue::BrokenReference {
                child: "USR-003".to_string(),
                parent_uuid: "0000".to_string(),
            },
            LinkIssue::CircularDependency {
                cycle: vec!["A-001".to_string(), "A-002".to_string(), "A-001".to_string()],
            },
            LinkIssue::StaleHrid { child: "USR-004".to_string() },
        ],
        suspect: vec![SuspectIssue { child: "USR-005".to_string(), parent: "SYS-001".to_string() }],
    }
}

#[test]
fn counts_split_into_fixable_and_manual() {
    let result = sample();
    assert_eq!(result.count_total_issues(), 6);
    assert_eq!(result.count_stale_hrids(), 2);
    assert_eq!(result.count_fixable_issues(), 3);
    assert_eq!(result.count_unfixable_issues(), 3);
}

#[test]
fn empty_result_has_no_issues() {
    let result = ValidationResult::default();
    assert_eq!(result.count_total_issues(), 0);
    assert_eq!(result.count_fixable_issues(), 0);
}

#[test]
fn categorize_keeps_order_within_groups() {
    let result = sample();
    let (cycles, broken, stale) = categorize_link_issues(&result.links);
    assert_eq!(cycles.len(), 1);
    assert_eq!(broken.len(), 1);
    assert_eq!(stale.len(), 2);
    assert!(matches!(stale[0], LinkIssue::StaleHrid { child } if child == "USR-002"));
    assert!(matches!(stale[1], LinkIssue::StaleHrid { child } if child == "USR-004"));
}
