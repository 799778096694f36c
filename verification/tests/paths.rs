use requiem_core::config::Config;
use requiem_core::hrid::Hrid;
use requiem_core::paths::{construct_path_from_hrid, hrid_from_path};

fn components(relative: &str) -> Vec<String> {
    relative.split('/').map(str::to_string).collect()
}

fn config(subfolders_are_namespaces: bool) -> Config {
    let mut config = Config::default();
    config.set_subfolders_are_namespaces(subfolders_are_namespaces);
    config
}

#[test]
fn construct_path_filename_based() {
    let hrid = Hrid::try_from("SYSTEM-AUTH-REQ-001").unwrap();
    let path = construct_path_from_hrid(&hrid, false, 3);
    assert_eq!(path, components("SYSTEM-AUTH-REQ-001.md"));
}

#[test]
fn construct_path_path_based() {
    let hrid = Hrid::try_from("SYSTEM-AUTH-REQ-001").unwrap();
    let path = construct_path_from_hrid(&hrid, true, 3);
    assert_eq!(path, components("SYSTEM/AUTH/REQ/001.md"));
}

#[test]
fn construct_path_path_based_no_namespace() {
    let hrid = Hrid::try_from("REQ-001").unwrap();
    let path = construct_path_from_hrid(&hrid, true, 3);
    assert_eq!(path, components("REQ/001.md"));
}

#[test]
fn construct_path_with_custom_digits() {
    let hrid = Hrid::try_from("REQ-001").unwrap();
    let path = construct_path_from_hrid(&hrid, true, 5);
    assert_eq!(path, components("REQ/00001.md"));
}

#[test]
fn construct_path_with_lowercase_namespace() {
    let hrid = Hrid::try_from("auth-api-SYS-001").unwrap();
    let path = construct_path_from_hrid(&hrid, true, 3);
    assert_eq!(path, components("auth/api/SYS/001.md"));
}

#[test]
fn construct_path_lowercase_namespace_filename_based() {
    let hrid = Hrid::try_from("auth-api-SYS-001").unwrap();
    let path = construct_path_from_hrid(&hrid, false, 3);
    assert_eq!(path, components("auth-api-SYS-001.md"));
}

#[test]
fn parse_hrid_from_path_filename_based() {
    let hrid = hrid_from_path(&components("SYSTEM-AUTH-REQ-001.md"), &config(false)).unwrap();
    assert_eq!(hrid.display(3).to_string(), "SYSTEM-AUTH-REQ-001");
}

#[test]
fn parse_hrid_from_path_path_based() {
    let hrid = hrid_from_path(&components("SYSTEM/AUTH/REQ/001.md"), &config(true)).unwrap();
    assert_eq!(hrid.display(3).to_string(), "SYSTEM-AUTH-REQ-001");
}

#[test]
fn parse_hrid_from_path_path_based_no_namespace() {
    let hrid = hrid_from_path(&components("REQ/001.md"), &config(true)).unwrap();
    assert_eq!(hrid.display(3).to_string(), "REQ-001");
}

#[test]
fn parse_hrid_from_path_lowercase_namespace() {
    let hrid = hrid_from_path(&components("auth/api/SYS/001.md"), &config(true)).unwrap();
    assert_eq!(hrid.display(3).to_string(), "auth-api-SYS-001");
}

#[test]
fn parse_hrid_from_path_lowercase_namespace_filename_based() {
    let hrid = hrid_from_path(&components("auth-api-SYS-001.md"), &config(false)).unwrap();
    assert_eq!(hrid.display(3).to_string(), "auth-api-SYS-001");
}

#[test]
fn parse_hrid_from_path_invalid_id_path_based() {
    let result = hrid_from_path(&components("REQ/invalid.md"), &config(true));
    assert!(result.is_err());
    assert_eq!(result.unwrap_err(), "Invalid ID in path: invalid");
}

#[test]
fn parse_hrid_from_path_roundtrip_filename_based() {
    let original_hrid = Hrid::try_from("auth-api-SYS-001").unwrap();
    let path = construct_path_from_hrid(&original_hrid, false, 3);
    let parsed_hrid = hrid_from_path(&path, &config(false)).unwrap();
    assert_eq!(original_hrid.display(3).to_string(), parsed_hrid.display(3).to_string());
}

#[test]
fn parse_hrid_from_path_roundtrip_path_based() {
    let original_hrid = Hrid::try_from("auth-api-SYS-001").unwrap();
    let path = construct_path_from_hrid(&original_hrid, true, 3);
    let parsed_hrid = hrid_from_path(&path, &config(true)).unwrap();
    assert_eq!(original_hrid.display(3).to_string(), parsed_hrid.display(3).to_string());
}

#[test]
fn path_based_mode_needs_kind_and_id() {
    let result = hrid_from_path(&components("001.md"), &config(true));
    assert_eq!(result.unwrap_err(), "Path must have at least KIND/ID");
}

#[test]
fn path_based_mode_rejects_lowercase_kind_folder() {
    let result = hrid_from_path(&components("req/001.md"), &config(true));
    assert!(result.unwrap_err().starts_with("Invalid KIND: "));
}

#[test]
fn lexical_normal_resolves_dots() {
    let c = |parts: &[&str]| parts.iter().map(|p| p.to_string()).collect::<Vec<String>>();
    assert_eq!(
        requiem_core::paths::lexical_normal(&c(&["/", "a", "b", "..", ".", "c"])),
        c(&["/", "a", "c"])
    );
    assert_eq!(requiem_core::paths::lexical_normal(&c(&["/", "..", "a"])), c(&["/", "a"]));
    assert_eq!(requiem_core::paths::lexical_normal(&c(&["..", "a"])), c(&["a"]));
}
