use requiem_core::config::{AllowedKindEntry, Config};

#[test]
fn set_kind_description_adds_and_removes_metadata() {
    let mut config = Config::default();
    config.add_kind("usr");

    config.set_kind_description("usr", Some("User stories".into()));
    assert_eq!(
        config
            .metadata_for_kind("USR")
            .and_then(|m| m.description.as_deref()),
        Some("User stories")
    );

    config.set_kind_description("USR", Some("Refined".into()));
    assert_eq!(
        config
            .metadata_for_kind("USR")
            .and_then(|m| m.description.as_deref()),
        Some("Refined")
    );

    config.set_kind_description("usr", Some("   ".into()));
    assert!(config.metadata_for_kind("USR").is_none());
}

#[test]
fn default_config_allows_every_kind() {
    let config = Config::default();
    assert_eq!(config.digits(), 3);
    assert!(config.allowed_kinds().is_empty());
    assert!(config.is_kind_allowed("ANY"));
    assert!(!config.subfolders_are_namespaces());
    assert!(!config.allow_unrecognised);
}

#[test]
fn add_kind_uppercases_and_ignores_duplicates() {
    let mut config = Config::default();
    assert!(config.add_kind("usr"));
    assert!(!config.add_kind("USR"));
    assert!(config.add_kind("Sys"));
    assert_eq!(config.allowed_kinds(), &["USR".to_string(), "SYS".to_string()]);
    assert!(config.is_kind_allowed("SYS"));
    assert!(!config.is_kind_allowed("TST"));
}

#[test]
fn remove_kind_drops_kind_and_metadata() {
    let mut config = Config::default();
    config.add_kind("USR");
    config.add_kind("SYS");
    config.set_kind_description("USR", Some("User".into()));
    assert!(config.remove_kind("usr"));
    assert!(!config.remove_kind("usr"));
    assert_eq!(config.allowed_kinds(), &["SYS".to_string()]);
    assert!(config.metadata_for_kind("USR").is_none());
}

#[test]
fn entries_with_metadata_round_trip() {
    let entries = vec![
        AllowedKindEntry::Detailed {
            kind: "USR".to_string(),
            description: Some("User-facing change".to_string()),
        },
        AllowedKindEntry::Simple("SYS".to_string()),
    ];
    let config = Config::from_entries(entries, 3, false, false);
    assert_eq!(config.allowed_kinds(), &["USR".to_string(), "SYS".to_string()]);
    let usr = config.metadata_for_kind("USR").unwrap();
    assert_eq!(usr.description.as_deref(), Some("User-facing change"));
    assert!(config.metadata_for_kind("SYS").is_none());

    let stored = config.to_entries();
    assert_eq!(
        stored,
        vec![
            AllowedKindEntry::Detailed {
                kind: "USR".to_string(),
                description: Some("User-facing change".to_string()),
            },
            AllowedKindEntry::Simple("SYS".to_string()),
        ]
    );
}

#[test]
fn subfolder_setting_can_be_toggled() {
    let mut config = Config::default();
    config.set_subfolders_are_namespaces(true);
    assert!(config.subfolders_are_namespaces());
}
