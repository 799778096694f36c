use requiem_core::config::Config;
use requiem_core::directory::Directory;
use requiem_core::requirement::Requirement;
use requiem_core::summary::{collect_summary_entries, relative_link, render_entries, splice, Entry, SpliceError};

fn entry(namespace: &[&str], kind: &str, id: usize, title: &str, link: &str) -> Entry {
    let hrid = namespace
        .iter()
        .copied()
        .chain([kind])
        .collect::<Vec<_>>()
        .join("-");
    Entry {
        namespace: namespace.iter().map(ToString::to_string).collect(),
        kind: kind.to_string(),
        id,
        hrid: format!("{hrid}-{id:03}"),
        title: title.to_string(),
        link: link.to_string(),
    }
}

#[test]
fn renders_flat_repository_grouped_by_kind() {
    let entries = vec![
        entry(&[], "SYS", 1, "Auth Service", "./SYS-001.md"),
        entry(&[], "USR", 1, "Login", "./USR-001.md"),
    ];
    let expected = "\
- [SYS]()
  - [SYS-001: Auth Service](./SYS-001.md)
- [USR]()
  - [USR-001: Login](./USR-001.md)
";
    assert_eq!(render_entries(&entries), expected);
}

#[test]
fn renders_namespaces_as_nested_draft_chapters() {
    let entries = vec![
        entry(&["CLI"], "USR", 9, "Lifecycle", "./CLI/USR/009.md"),
        entry(&["CORE"], "SYS", 6, "Sphinx", "./CORE/SYS/006.md"),
        entry(&["CORE"], "SYS", 7, "MdBook", "./CORE/SYS/007.md"),
        entry(&["CORE"], "USR", 5, "SSG Integration", "./CORE/USR/005.md"),
    ];
    let expected = "\
- [CLI]()
  - [USR]()
    - [CLI-USR-009: Lifecycle](./CLI/USR/009.md)
- [CORE]()
  - [SYS]()
    - [CORE-SYS-006: Sphinx](./CORE/SYS/006.md)
    - [CORE-SYS-007: MdBook](./CORE/SYS/007.md)
  - [USR]()
    - [CORE-USR-005: SSG Integration](./CORE/USR/005.md)
";
    assert_eq!(render_entries(&entries), expected);
}

#[test]
fn repeats_kind_header_when_namespace_changes() {
    let entries = vec![
        entry(&["A"], "USR", 1, "One", "./A/USR/001.md"),
        entry(&["B"], "USR", 1, "Two", "./B/USR/001.md"),
    ];
    let expected = "\
- [A]()
  - [USR]()
    - [A-USR-001: One](./A/USR/001.md)
- [B]()
  - [USR]()
    - [B-USR-001: Two](./B/USR/001.md)
";
    assert_eq!(render_entries(&entries), expected);
}

#[test]
fn renders_empty_title_as_bare_hrid() {
    let entries = vec![entry(&[], "DFT", 15, "", "./DFT-015.md")];
    assert_eq!(
        render_entries(&entries),
        "- [DFT]()\n  - [DFT-015](./DFT-015.md)\n"
    );
}

#[test]
fn splice_replaces_only_the_marked_region() {
    let existing = "# Summary\n\n- [Intro](./intro.md)\n\n<!-- requiem:summary:start -->\nstale\n<!-- requiem:summary:end -->\n\n# Reference\n";
    let result = splice(existing, "- [USR]()\n").unwrap();
    assert_eq!(
        result,
        "# Summary\n\n- [Intro](./intro.md)\n\n<!-- requiem:summary:start -->\n- [USR]()\n<!-- requiem:summary:end -->\n\n# Reference\n"
    );
}

#[test]
fn splice_is_idempotent() {
    let existing = "a\n<!-- requiem:summary:start -->\n<!-- requiem:summary:end -->\nb\n";
    let once = splice(existing, "- [X]()\n").unwrap();
    let twice = splice(&once, "- [X]()\n").unwrap();
    assert_eq!(once, twice);
}

#[test]
fn splice_rejects_missing_or_malformed_markers() {
    assert!(splice("no markers here", "x").is_err());
    assert!(splice("<!-- requiem:summary:start -->", "x").is_err());
    assert!(splice(
        "<!-- requiem:summary:end -->\n<!-- requiem:summary:start -->",
        "x"
    )
    .is_err());
    assert!(splice(
        "<!-- requiem:summary:start -->\n<!-- requiem:summary:start -->\n<!-- requiem:summary:end -->",
        "x"
    )
    .is_err());
    assert!(splice(
        "<!-- requiem:summary:start -->\n<!-- requiem:summary:end -->\n<!-- requiem:summary:end -->",
        "x"
    )
    .is_err());
}

#[test]
fn splice_errors_name_the_problem() {
    assert_eq!(splice("no markers here", "x").unwrap_err(), SpliceError::MissingStart);
    assert_eq!(
        splice("<!-- requiem:summary:start -->", "x").unwrap_err(),
        SpliceError::MissingEnd
    );
    assert_eq!(
        SpliceError::MultipleEnd.to_string(),
        "multiple '<!-- requiem:summary:end -->' markers found; expected exactly one"
    );
}

#[test]
fn relative_link_walks_up_and_down() {
    assert_eq!(
        relative_link("/repo/docs/src", "/repo/docs/src/requirements/CORE/USR/001.md"),
        "./requirements/CORE/USR/001.md"
    );
    assert_eq!(
        relative_link("/repo/docs/src/nested", "/repo/docs/src/USR-001.md"),
        "../USR-001.md"
    );
    assert_eq!(
        relative_link("/repo/a/./b", "/repo/a/c/../d/USR-001.md"),
        "../d/USR-001.md"
    );
}

#[test]
fn collected_entries_follow_namespace_kind_and_id() {

    let req = |text: &str, uuid: u128, title: &str, file: &str| {
        let mut r = Requirement::new(text.parse().unwrap(), title.to_string(), String::new());
        r.uuid = uuid;
        (r, vec![file.to_string()])
    };
    let loaded = vec![
        req("CORE-USR-002", 1, "  Spaced  ", "CORE-USR-002.md"),
        req("USR-001", 2, "Login", "USR-001.md"),
        req("CORE-USR-001", 3, "", "CORE-USR-001.md"),
        req("SYS-001", 4, "Auth", "SYS-001.md"),
    ];
    let dir = Directory::load(Config::default(), loaded, Vec::new()).unwrap();
    let entries = collect_summary_entries(&dir, "/home/req", "/home/req");
    let hrids: Vec<&str> = entries.iter().map(|e| e.hrid.as_str()).collect();
    assert_eq!(hrids, vec!["SYS-001", "USR-001", "CORE-USR-001", "CORE-USR-002"]);
    assert_eq!(entries[0].link, "./SYS-001.md");
    assert_eq!(entries[0].title, "Auth");
    assert_eq!(entries[3].title, "Spaced");
    assert_eq!(entries[3].namespace, vec!["CORE".to_string()]);
    assert_eq!(entries[3].id, 2);

    let nested = collect_summary_entries(&dir, "/home/req", "/home/docs");
    assert_eq!(nested[0].link, "../req/SYS-001.md");
}
