//! Classifying corpus files against the known-bad list.

use scarpet::corpus::{Outcome, is_known_bad};

#[test]
fn known_bad_files_are_listed_by_relative_path() {
    assert!(is_known_bad("gnembon/scarpet/programs/survival/portalorient.sc"));
    assert!(is_known_bad("gnembon/scarpet/programs/survival/rifts/rifts.sc"));
    assert!(is_known_bad("Ghoulboy78/Scarpet-edit/se.sc"));
    assert!(!is_known_bad("gnembon/scarpet/programs/survival/other.sc"));
    assert!(!is_known_bad(""));
}

#[test]
fn record_tallies_each_combination() {
    let mut out = Outcome::default();
    out.total = 4;
    out.record("a.sc".to_string(), true);
    out.record("Ghoulboy78/Scarpet-edit/se.sc".to_string(), false);
    assert!(out.is_clean());
    out.record("b.sc".to_string(), false);
    out.record("gnembon/scarpet/programs/survival/rifts/rifts.sc".to_string(), true);
    assert_eq!(out.total, 4);
    assert_eq!(out.ok, 1);
    assert_eq!(out.expected_failures, 1);
    assert_eq!(out.unexpected_failures, ["b.sc"]);
    assert_eq!(
        out.unexpected_passes,
        ["gnembon/scarpet/programs/survival/rifts/rifts.sc"]
    );
    assert!(!out.is_clean());
}
