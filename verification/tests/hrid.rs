use requiem_core::hrid::parse_cli_hrid;
use requiem_core::hrid::{Error, Hrid, KindString};
use std::str::FromStr;

#[test]
fn hrid_creation_no_namespace() {
    let kind = KindString::new("URS".to_string()).unwrap();
    let id: usize = 42;
    let hrid = Hrid::new(kind, id);
    assert!(hrid.namespace().is_empty());
    assert_eq!(hrid.kind(), "URS");
    assert_eq!(hrid.id(), 42);
}

#[test]
fn hrid_creation_with_namespace() {
    let hrid = Hrid::from_str("component-subcomponent-SYS-005").unwrap();

    assert_eq!(hrid.namespace(), vec!["component", "subcomponent"]);
    assert_eq!(hrid.kind(), "SYS");
    assert_eq!(hrid.id(), 5);
}

#[test]
fn hrid_creation_empty_kind_fails() {
    assert!(KindString::new(String::new()).is_err());
}

#[test]
fn hrid_creation_lowercase_kind_fails() {
    assert!(KindString::new("sys".to_string()).is_err());
}

#[test]
fn hrid_creation_zero_id_fails() {
    assert!(std::num::NonZeroUsize::new(0).is_none());
    assert!(matches!(Hrid::try_from("URS-0"), Err(Error::Id(_, _))));
}

fn display_case(text: &str, digits: usize, expected: &str) {
    let hrid = Hrid::from_str(text).unwrap();
    assert_eq!(hrid.display(digits).to_string(), expected);
}

#[test]
fn hrid_display_no_namespace() {
    display_case("SYS-001", 2, "SYS-01");
    display_case("SYS-042", 2, "SYS-42");
    display_case("SYS-099", 2, "SYS-99");
    display_case("SYS-100", 2, "SYS-100");
    display_case("SYS-001", 3, "SYS-001");
    display_case("SYS-042", 3, "SYS-042");
    display_case("SYS-999", 3, "SYS-999");
    display_case("SYS-1000", 3, "SYS-1000");
    display_case("SYS-001", 4, "SYS-0001");
    display_case("SYS-9999", 4, "SYS-9999");
    display_case("SYS-10000", 4, "SYS-10000");
    display_case("SYS-001", 5, "SYS-00001");
    display_case("SYS-99999", 5, "SYS-99999");
}

#[test]
fn hrid_display_with_namespace() {
    display_case("COMPONENT-SYS-005", 2, "COMPONENT-SYS-05");
    display_case("COMPONENT-SYS-005", 3, "COMPONENT-SYS-005");
    display_case("COMPONENT-SYS-005", 4, "COMPONENT-SYS-0005");
    display_case("A-B-C-REQ-123", 3, "A-B-C-REQ-123");
}

#[test]
fn hrid_display_large_numbers() {
    display_case("BIG-1000", 3, "BIG-1000");
    display_case("BIG-12345", 3, "BIG-12345");
    display_case("BIG-10000", 4, "BIG-10000");
    display_case("BIG-100000", 4, "BIG-100000");
}

#[test]
fn try_from_valid_no_namespace() {
    let hrid = Hrid::try_from("URS-001").unwrap();
    assert!(hrid.namespace().is_empty());
    assert_eq!(hrid.kind(), "URS");
    assert_eq!(hrid.id(), 1);

    let hrid = Hrid::try_from("SYS-042").unwrap();
    assert!(hrid.namespace().is_empty());
    assert_eq!(hrid.kind(), "SYS");
    assert_eq!(hrid.id(), 42);

    let hrid = Hrid::try_from("TEST-999").unwrap();
    assert!(hrid.namespace().is_empty());
    assert_eq!(hrid.kind(), "TEST");
    assert_eq!(hrid.id(), 999);
}

#[test]
fn try_from_valid_with_namespace() {
    let hrid = Hrid::try_from("COMPONENT-SYS-005").unwrap();
    assert_eq!(hrid.namespace(), vec!["COMPONENT"]);
    assert_eq!(hrid.kind(), "SYS");
    assert_eq!(hrid.id(), 5);

    let hrid = Hrid::try_from("COMPONENT-SUBCOMPONENT-SYS-005").unwrap();
    assert_eq!(hrid.namespace(), vec!["COMPONENT", "SUBCOMPONENT"]);
    assert_eq!(hrid.kind(), "SYS");
    assert_eq!(hrid.id(), 5);

    let hrid = Hrid::try_from("A-B-C-REQ-123").unwrap();
    assert_eq!(hrid.namespace(), vec!["A", "B", "C"]);
    assert_eq!(hrid.kind(), "REQ");
    assert_eq!(hrid.id(), 123);
}

#[test]
fn try_from_valid_no_leading_zeros() {
    let hrid = Hrid::try_from("URS-1").unwrap();
    assert!(hrid.namespace().is_empty());
    assert_eq!(hrid.kind(), "URS");
    assert_eq!(hrid.id(), 1);

    let hrid = Hrid::try_from("NS-SYS-42").unwrap();
    assert_eq!(hrid.namespace(), vec!["NS"]);
    assert_eq!(hrid.kind(), "SYS");
    assert_eq!(hrid.id(), 42);
}

#[test]
fn try_from_valid_large_numbers() {
    let hrid = Hrid::try_from("BIG-1000").unwrap();
    assert!(hrid.namespace().is_empty());
    assert_eq!(hrid.kind(), "BIG");
    assert_eq!(hrid.id(), 1000);

    let hrid = Hrid::try_from("NS-HUGE-12345").unwrap();
    assert_eq!(hrid.namespace(), vec!["NS"]);
    assert_eq!(hrid.kind(), "HUGE");
    assert_eq!(hrid.id(), 12345);
}

#[test]
fn try_from_invalid_no_dash() {
    let result = Hrid::try_from("URS001");
    assert!(matches!(result, Err(Error::Syntax(_))));
}

#[test]
fn try_from_invalid_empty_string() {
    let result = Hrid::try_from("");
    assert!(matches!(result, Err(Error::Syntax(_))));
}

#[test]
fn try_from_invalid_only_dash() {
    let result = Hrid::try_from("-");
    assert!(matches!(result, Err(Error::Syntax(_))));
}

#[test]
fn try_from_invalid_single_part() {
    let result = Hrid::try_from("JUSTONEWORD");
    assert!(matches!(result, Err(Error::Syntax(_))));
}

#[test]
fn try_from_invalid_non_numeric_id() {
    let result = Hrid::try_from("URS-abc");
    assert!(matches!(result, Err(Error::Id(_, _))));

    let result = Hrid::try_from("NS-URS-abc");
    assert!(matches!(result, Err(Error::Id(_, _))));
}

#[test]
fn try_from_invalid_mixed_id() {
    let result = Hrid::try_from("SYS-12abc");
    assert!(matches!(result, Err(Error::Id(_, _))));
}

#[test]
fn try_from_invalid_negative_id() {
    let result = Hrid::try_from("URS--1");
    assert!(matches!(result, Err(Error::Syntax(_))));
}

#[test]
fn try_from_invalid_zero_id() {
    let result = Hrid::try_from("URS-0");
    assert!(matches!(result, Err(Error::Id(_, _))));
}

#[test]
fn try_from_invalid_lowercase_kind() {
    let result = Hrid::try_from("urs-001");
    assert!(matches!(result, Err(Error::Kind(_))));
}

#[test]
fn try_from_valid_lowercase_namespace() {
    let result = Hrid::try_from("ns-URS-001");
    assert!(result.is_ok());
    let hrid = result.unwrap();
    assert_eq!(hrid.namespace(), vec!["ns"]);
    assert_eq!(hrid.kind(), "URS");
    assert_eq!(hrid.id(), 1);
}

#[test]
fn lowercase_namespace_preserves_case() {
    let hrid = Hrid::from_str("auth-SYS-001").unwrap();
    assert_eq!(hrid.namespace(), vec!["auth"]);
    assert_eq!(hrid.display(3).to_string(), "auth-SYS-001");
}

#[test]
fn mixed_case_namespace_preserves_case() {
    let hrid = Hrid::from_str("Auth-Api-SYS-001").unwrap();
    assert_eq!(hrid.namespace(), vec!["Auth", "Api"]);
    assert_eq!(hrid.display(3).to_string(), "Auth-Api-SYS-001");
}

#[test]
fn lowercase_kind_still_rejected() {
    let result = Hrid::from_str("auth-sys-001");
    assert!(result.is_err());
}

#[test]
fn try_from_empty_namespace_segment_fails() {
    let result = Hrid::try_from("-NS-SYS-001");
    assert!(matches!(result, Err(Error::Syntax(_))));

    let result = Hrid::try_from("NS--SYS-001");
    assert!(matches!(result, Err(Error::Syntax(_))));
}

#[test]
fn try_from_empty_kind_fails() {
    let result = Hrid::try_from("-001");
    assert!(matches!(result, Err(Error::Syntax(_))));
}

#[test]
fn hrid_clone_and_eq() {
    let hrid1 = Hrid::from_str("ns-URS-042").unwrap();
    let hrid2 = hrid1.clone();

    assert_eq!(hrid1, hrid2);
    assert_eq!(hrid1.namespace(), hrid2.namespace());
    assert_eq!(hrid1.kind(), hrid2.kind());
    assert_eq!(hrid1.id(), hrid2.id());
}

#[test]
fn hrid_not_eq() {
    let hrid1 = Hrid::from_str("URS-042").unwrap();
    let hrid2 = Hrid::from_str("SYS-042").unwrap();
    let hrid3 = Hrid::from_str("URS-043").unwrap();
    let hrid4 = Hrid::from_str("ns-URS-042").unwrap();

    assert_ne!(hrid1, hrid2);
    assert_ne!(hrid1, hrid3);
    assert_ne!(hrid1, hrid4);
}

#[test]
fn roundtrip_conversion_no_namespace() {
    let original = Hrid::from_str("TEST-123").unwrap();
    let as_string = original.display(3).to_string();
    let parsed = Hrid::try_from(as_string.as_str()).unwrap();

    assert_eq!(original, parsed);
}

#[test]
fn roundtrip_conversion_with_namespace() {
    let original = Hrid::from_str("COMPONENT-SUBCOMPONENT-SYS-005").unwrap();
    let as_string = original.display(3).to_string();
    let parsed = Hrid::try_from(as_string.as_str()).unwrap();

    assert_eq!(original, parsed);
}

#[test]
fn strict_uppercase_validation() {
    assert!(KindString::new("sys".to_string()).is_err());

    let result = Hrid::from_str("component-sys-001");
    assert!(matches!(result, Err(Error::Kind(_))));
}

#[test]
fn error_display() {
    let syntax_error = Error::Syntax("bad-format".to_string());
    assert_eq!(syntax_error.to_string(), "Invalid HRID format: bad-format");

    let id_error = Error::Id("URS-bad".to_string(), "bad".to_string());
    assert_eq!(
        id_error.to_string(),
        "Invalid ID in HRID 'URS-bad': expected a non-zero integer, got bad"
    );
}

#[test]
fn namespace_error_names_the_segment_problem() {
    let result = Hrid::try_from("a1-SYS-001");
    assert_eq!(
        result.unwrap_err().to_string(),
        "Invalid namespace segment in HRID 'a1-SYS-001': namespace segment must be non-empty and contain only letters (a-z, A-Z)"
    );
}

#[test]
fn display_pads_to_the_requested_width() {
    let hrid = Hrid::try_from("x-y-ABC-7").unwrap();
    assert_eq!(hrid.to_string_with_digits(4), "x-y-ABC-0007");
    assert_eq!(hrid.prefix(), "x-y-ABC");
}

#[test]
fn cli_hrid_upper_cases_only_the_kind() {
    let h = parse_cli_hrid("auth-sys-001").unwrap();
    assert_eq!(h.kind(), "SYS");
    assert_eq!(h.namespace(), vec!["auth"]);
    assert_eq!(h.id(), 1);
    assert_eq!(parse_cli_hrid("usr-002").unwrap().to_string_with_digits(3), "USR-002");
    assert_eq!(parse_cli_hrid("nodash").unwrap_err(), "Invalid HRID format");
    assert!(parse_cli_hrid("usr-abc").is_err());
}
