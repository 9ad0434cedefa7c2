//! The slug/number codec and configuration defaults.

use radr::config::Config;
use radr::domain::{parse_number, slugify, title_from_filename};

#[test]
fn test_slugify() {
    assert_eq!(slugify("Hello World"), "hello-world");
    assert_eq!(slugify("  Multiple   Spaces  "), "multiple-spaces");
    assert_eq!(slugify("Caps_and-Dashes"), "caps-and-dashes");
    assert_eq!(slugify("@#Weird!! Title??"), "weird-title");
    assert_eq!(slugify(""), "adr");
}

#[test]
fn test_parse_number() {
    assert_eq!(parse_number("0003").unwrap(), 3);
    assert_eq!(parse_number("3").unwrap(), 3);
    assert_eq!(parse_number("0000").unwrap(), 0);
}

#[test]
fn parse_number_rejects_free_text() {
    assert!(parse_number("not a number").is_err());
    let err = parse_number("12x").unwrap_err();
    assert!(err.message().contains("invalid ADR number"));
}

#[test]
fn test_default_config() {
    let c = Config::default();
    assert_eq!(c.index_name, "index.md");
    assert_eq!(c.adr_dir, "docs/adr");
    assert_eq!(c.format, "md");
    assert!(!c.front_matter);
    assert!(c.template.is_none());
}

#[test]
fn title_round_trips_through_filename() {
    assert_eq!(
        title_from_filename("0001-first-decision.md").unwrap(),
        "First Decision"
    );
    assert_eq!(title_from_filename("0007-no-status.md").unwrap(), "No Status");
    assert!(title_from_filename("README.md").is_none());
}
