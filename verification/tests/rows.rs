use requiem_core::hrid::{Hrid, KindString, NamespaceSegment};
use requiem_core::listing::{Direction, ListColumn, ListingView, Row, SortField};
use requiem_core::render::{
    build_serializable_row, csv_lines, display_width, table_lines, tree_lines,
};
use requiem_core::requirement::Timestamp;
use requiem_core::rows::{
    apply_sort, augment_with_context, effective_limit, link_children, listing_header, produce_base_rows,
    produce_direction_rows, produce_rows, produce_tree_rows, resolve_targets, traverse, truncation_note, Filters,
    LinkRef, ListEntry, Pattern,
};

const DAY: i64 = 86_400;
const BASE: i64 = 1_704_067_200; // 2024-01-01T00:00:00Z

struct SampleEntries {
    entries: Vec<ListEntry>,
}

fn hrid(text: &str) -> Hrid {
    text.parse().unwrap()
}

fn link(uuid: u128, h: &Hrid) -> LinkRef {
    LinkRef { uuid, hrid: h.clone() }
}

impl SampleEntries {
    fn new() -> Self {
        let root_uuid = 1u128;
        let child_uuid = 2u128;
        let leaf_uuid = 3u128;
        let root_hrid = hrid("SYS-001");
        let child_hrid = hrid("SYS-002");
        let leaf_hrid = Hrid::new_with_namespace(
            vec![
                NamespaceSegment::new("SYSTEM".to_string()).unwrap(),
                NamespaceSegment::new("AUTH".to_string()).unwrap(),
            ],
            KindString::new("USR".to_string()).unwrap(),
            7,
        );
        let root = ListEntry {
            uuid: root_uuid,
            hrid: root_hrid.clone(),
            title: Some("Root".to_string()),
            tags: vec!["core".to_string()],
            created: Timestamp { seconds: BASE, nanos: 0 },
            content: "# Root requirement\nPrimary".to_string(),
            parents: Vec::new(),
            children: Vec::new(),
            path: "SYS-001.md".to_string(),
        };
        let child = ListEntry {
            uuid: child_uuid,
            hrid: child_hrid.clone(),
            title: Some("Child".to_string()),
            tags: Vec::new(),
            created: Timestamp { seconds: BASE + DAY, nanos: 0 },
            content: "## Child details\nImplements root".to_string(),
            parents: vec![link(root_uuid, &root_hrid)],
            children: Vec::new(),
            path: "SYS-002.md".to_string(),
        };
        let leaf = ListEntry {
            uuid: leaf_uuid,
            hrid: leaf_hrid,
            title: Some("Login".to_string()),
            tags: vec!["Security".to_string(), "UI".to_string()],
            created: Timestamp { seconds: BASE + 2 * DAY, nanos: 0 },
            content: "Implements login".to_string(),
            parents: vec![link(child_uuid, &child_hrid)],
            children: Vec::new(),
            path: "system/auth/USR-007.md".to_string(),
        };
        SampleEntries { entries: link_children(vec![root, child, leaf]) }
    }

    fn entries(&self) -> &[ListEntry] {
        &self.entries
    }

    fn root_index(&self) -> usize {
        0
    }

    fn child_index(&self) -> usize {
        1
    }

    fn leaf_index(&self) -> usize {
        2
    }

    fn leaf(&self) -> &ListEntry {
        &self.entries[2]
    }
}

fn row(index: usize, direction: Direction, depth: usize) -> Row {
    Row { index, direction, depth }
}

fn empty_filters() -> Filters {
    Filters::new(&[], &[], &[], false, false, None, None).unwrap()
}

fn all_hits(entries: &[ListEntry]) -> Vec<bool> {
    vec![true; entries.len()]
}

fn shown(entries: &[ListEntry], r: &Row) -> String {
    entries[r.index].hrid.display(3).to_string()
}

#[test]
fn link_children_records_children_in_order() {
    let fixtures = SampleEntries::new();
    let entries = fixtures.entries();
    assert_eq!(entries[0].children.len(), 1);
    assert_eq!(entries[0].children[0].uuid, 2);
    assert_eq!(entries[1].children.len(), 1);
    assert_eq!(entries[1].children[0].uuid, 3);
    assert!(entries[2].children.is_empty());
}

#[test]
fn produce_direction_rows_walks_graph() {
    let fixtures = SampleEntries::new();
    let filters = empty_filters();
    let hits = all_hits(fixtures.entries());
    let target = vec![fixtures.leaf_index()];

    let parents =
        produce_direction_rows(ListingView::Ancestors, fixtures.entries(), &filters, &hits, &target, Some(2));
    assert_eq!(parents.len(), 2);
    assert!(parents.iter().any(|row| shown(fixtures.entries(), row) == "SYS-001"));

    let children = produce_direction_rows(
        ListingView::Descendants,
        fixtures.entries(),
        &filters,
        &hits,
        &[fixtures.root_index()],
        Some(3),
    );
    assert_eq!(children.len(), 2);
    assert!(children.iter().any(|row| shown(fixtures.entries(), row).contains("USR-007")));
}

#[test]
fn traverse_reports_fewest_steps_in_order() {
    let fixtures = SampleEntries::new();
    let rows = traverse(&[fixtures.root_index()], fixtures.entries(), usize::MAX, Direction::Down);
    assert_eq!(rows, vec![row(1, Direction::Down, 1), row(2, Direction::Down, 2)]);
    let limited = traverse(&[fixtures.root_index()], fixtures.entries(), 1, Direction::Down);
    assert_eq!(limited, vec![row(1, Direction::Down, 1)]);
    let none = traverse(&[fixtures.root_index()], fixtures.entries(), 5, Direction::Up);
    assert!(none.is_empty());
}

#[test]
fn produce_tree_rows_and_context() {
    let fixtures = SampleEntries::new();
    let filters = empty_filters();
    let hits = all_hits(fixtures.entries());

    let rows = produce_tree_rows(fixtures.entries(), &filters, &hits, &[fixtures.root_index()], Some(5));
    assert!(rows.iter().any(|row| row.depth == 2));

    let rows = augment_with_context(fixtures.entries(), vec![row(fixtures.child_index(), Direction::Neutral, 0)], 2);
    assert!(rows.iter().any(|row| shown(fixtures.entries(), row) == "SYS-001"));
    assert!(rows.iter().any(|row| shown(fixtures.entries(), row).contains("USR-007")));
}

#[test]
fn tree_rows_start_from_roots_without_targets() {
    let fixtures = SampleEntries::new();
    let filters = empty_filters();
    let hits = all_hits(fixtures.entries());
    let rows = produce_tree_rows(fixtures.entries(), &filters, &hits, &[], None);
    assert_eq!(
        rows,
        vec![row(0, Direction::Neutral, 0), row(1, Direction::Down, 1), row(2, Direction::Down, 2)]
    );
    let shallow = produce_tree_rows(fixtures.entries(), &filters, &hits, &[], Some(1));
    assert_eq!(shallow, vec![row(0, Direction::Neutral, 0), row(1, Direction::Down, 1)]);
}

#[test]
fn apply_sort_orders_by_fields() {
    let fixtures = SampleEntries::new();
    let entries = fixtures.entries();
    let rows = vec![
        row(fixtures.child_index(), Direction::Neutral, 1),
        row(fixtures.root_index(), Direction::Neutral, 0),
        row(fixtures.leaf_index(), Direction::Neutral, 2),
    ];

    let ordered = apply_sort(rows.clone(), entries, SortField::Hrid, 3);
    assert_eq!(shown(entries, &ordered[0]), "SYS-001");

    let ordered_kind = apply_sort(rows.clone(), entries, SortField::Kind, 3);
    assert_eq!(entries[ordered_kind[0].index].hrid.kind(), "SYS");

    let ordered_title = apply_sort(rows.clone(), entries, SortField::Title, 3);
    assert_eq!(entries[ordered_title[0].index].title.as_deref(), Some("Child"));

    let ordered_created = apply_sort(rows, entries, SortField::Created, 3);
    assert_eq!(shown(entries, &ordered_created[0]), "SYS-001");
}

#[test]
fn apply_sort_keeps_ties_in_order() {
    let fixtures = SampleEntries::new();
    let rows = vec![row(1, Direction::Up, 1), row(1, Direction::Down, 1), row(0, Direction::Neutral, 0)];
    let ordered = apply_sort(rows, fixtures.entries(), SortField::Hrid, 3);
    assert_eq!(
        ordered,
        vec![row(0, Direction::Neutral, 0), row(1, Direction::Up, 1), row(1, Direction::Down, 1)]
    );
}

#[test]
fn filters_match_combined_conditions() {
    let fixtures = SampleEntries::new();
    let leaf = fixtures.leaf();

    let build = |orphans: bool, leaves: bool, tags: &[&str]| {
        let tags: Vec<String> = tags.iter().map(|t| t.to_string()).collect();
        Filters::new(
            &["usr".to_string()],
            &["auth".to_string()],
            &tags,
            orphans,
            leaves,
            Some("login".to_string()),
            Some(r"(?i)login".to_string()),
        )
        .unwrap()
    };

    assert!(build(false, false, &["security"]).matches(leaf));
    assert!(!build(true, false, &["security"]).matches(leaf));
    assert!(build(false, true, &["security"]).matches(leaf));
    assert!(!build(false, false, &["missing"]).matches(leaf));
}

#[test]
fn filters_refuse_invalid_pattern_and_describe_themselves() {
    let err = Filters::new(&[], &[], &[], false, false, None, Some("foo(bar".to_string())).unwrap_err();
    assert_eq!(err, "invalid regex: foo(bar");

    assert_eq!(empty_filters().describe(), "none");
    assert!(!empty_filters().any());
    let f = Filters::new(&["USR".to_string()], &[], &[], true, false, Some("x".to_string()), None).unwrap();
    assert_eq!(f.describe(), "kind: usr, orphans, text-match");
}

#[test]
fn regex_verdict_follows_the_pattern() {
    let fixtures = SampleEntries::new();
    let f = Filters::new(&[], &[], &[], false, false, None, Some("^Login\nImplements".to_string())).unwrap();
    assert_eq!(f.regex_verdicts(fixtures.entries()), vec![false, false, true]);
}

#[test]
fn base_rows_keep_targets_that_pass() {
    let fixtures = SampleEntries::new();
    let f = Filters::new(&["sys".to_string()], &[], &[], false, false, None, None).unwrap();
    let hits = all_hits(fixtures.entries());
    let rows = produce_base_rows(fixtures.entries(), &f, &hits, &[2, 0, 1]);
    assert_eq!(rows, vec![row(0, Direction::Neutral, 0), row(1, Direction::Neutral, 0)]);
}

#[test]
fn resolve_targets_finds_displayed_hrids() {
    let fixtures = SampleEntries::new();
    let found = resolve_targets(fixtures.entries(), &[hrid("SYS-002"), hrid("SYS-001")], 3).unwrap();
    assert_eq!(found, vec![1, 0]);
    let err = resolve_targets(fixtures.entries(), &[hrid("SYS-009")], 3).unwrap_err();
    assert_eq!(err, "requirement SYS-009 not found");
}

#[test]
fn produce_rows_dispatches_on_view() {
    let fixtures = SampleEntries::new();
    let filters = empty_filters();
    let hits = all_hits(fixtures.entries());
    let summary = produce_rows(ListingView::Summary, fixtures.entries(), &filters, &hits, false, vec![0, 1, 2], None);
    assert_eq!(summary.len(), 3);
    let parents = produce_rows(ListingView::Parents, fixtures.entries(), &filters, &hits, true, vec![2], None);
    assert_eq!(parents, vec![row(1, Direction::Up, 1)]);
    let context = produce_rows(ListingView::Context, fixtures.entries(), &filters, &hits, true, vec![1], Some(1));
    assert_eq!(context.len(), 3);
}

#[test]
fn display_width_ignores_ansi_and_counts_columns() {
    assert_eq!(display_width("\x1b[4mabc\x1b[24m"), 3);
    assert_eq!(display_width("\u{2191} SYS-001"), 9);
    assert_eq!("\u{2191} SYS-001".len(), 11);
}

#[test]
fn build_serializable_row_populates_fields() {
    let fixtures = SampleEntries::new();
    let entry = fixtures.leaf();
    let row = build_serializable_row(
        entry,
        &[
            ListColumn::Hrid,
            ListColumn::Title,
            ListColumn::Kind,
            ListColumn::Namespace,
            ListColumn::Parents,
            ListColumn::Children,
            ListColumn::Tags,
            ListColumn::Path,
            ListColumn::Created,
        ],
        3,
    );

    assert_eq!(row.hrid, entry.hrid.display(3).to_string());
    assert_eq!(row.title.as_deref(), entry.title.as_deref());
    assert_eq!(row.kind.as_deref(), Some(entry.hrid.kind()));
    assert_eq!(row.namespace.as_deref(), Some("SYSTEM-AUTH"));
    assert!(row.parents.as_ref().unwrap().contains("SYS-002"));
    assert!(row.children.is_none());
    assert!(row.tags.as_ref().unwrap().contains("Security"));
    assert_eq!(row.path.as_deref(), Some("system/auth/USR-007.md"));
    assert_eq!(row.created.as_deref(), Some("2024-01-03T00:00:00+00:00"));
}

#[test]
fn render_rows_supports_all_formats() {
    let fixtures = SampleEntries::new();
    let entries = fixtures.entries();
    let rows = vec![row(fixtures.root_index(), Direction::Neutral, 0), row(fixtures.child_index(), Direction::Down, 1)];

    let table = table_lines(&rows, entries, &[ListColumn::Hrid, ListColumn::Title, ListColumn::Tags], false, &None, false, 3);
    assert_eq!(
        table,
        vec![
            "HRID       Title  Tags  ".to_string(),
            "---------  -----  ----  ".to_string(),
            "SYS-001    Root   core  ".to_string(),
            "\u{2193} SYS-002  Child        ".to_string(),
        ]
    );

    let quiet = table_lines(&rows, entries, &[ListColumn::Hrid], true, &None, false, 3);
    assert_eq!(quiet, vec!["SYS-001".to_string(), "\u{2193} SYS-002".to_string()]);

    let csv = csv_lines(&rows, entries, &[ListColumn::Hrid, ListColumn::Title, ListColumn::Tags], false, 3);
    assert_eq!(csv, vec!["HRID,Title,Tags".to_string(), "SYS-001,Root,core".to_string(), "SYS-002,Child,".to_string()]);

    let tree = tree_lines(&rows, entries, false, 3);
    assert_eq!(tree, vec!["SYS-001 Root".to_string(), "\u{2514}\u{2500} \u{2193} SYS-002 Child".to_string()]);
}

#[test]
fn tree_lines_draw_siblings_and_ascii() {
    let fixtures = SampleEntries::new();
    let entries = fixtures.entries();
    let rows = vec![
        row(0, Direction::Neutral, 0),
        row(1, Direction::Down, 1),
        row(2, Direction::Down, 2),
        row(2, Direction::Down, 1),
    ];
    let tree = tree_lines(&rows, entries, true, 3);
    assert_eq!(
        tree,
        vec![
            "SYS-001 Root".to_string(),
            "|- \u{2193} SYS-002 Child".to_string(),
            "   `- \u{2193} SYSTEM-AUTH-USR-007 Login".to_string(),
            "`- \u{2193} SYSTEM-AUTH-USR-007 Login".to_string(),
        ]
    );
}

#[test]
fn header_and_limits() {
    assert_eq!(effective_limit(None), Some(200));
    assert_eq!(effective_limit(Some(0)), None);
    assert_eq!(effective_limit(Some(7)), Some(7));
    assert_eq!(
        listing_header(ListingView::Tree, &empty_filters(), Some(0)),
        "Listing requirements (view: tree, filters: none, limit: unlimited)"
    );
    assert_eq!(
        listing_header(ListingView::Summary, &empty_filters(), None),
        "Listing requirements (view: summary, filters: none, limit: 200)"
    );
    assert_eq!(truncation_note(12), "+12 more (use --limit or --offset)");
}

#[test]
fn pattern_keeps_its_source_and_refuses_bad_syntax() {
    let p = Pattern::compile("^Log(in)?").unwrap();
    assert_eq!(p.as_str(), "^Log(in)?");
    assert!(Pattern::compile("foo(bar").is_none());
    let f = Filters::new(&[], &[], &[], false, false, None, Some("b+".to_string())).unwrap();
    assert_eq!(f.regex.as_ref().unwrap().as_str(), "b+");
}
