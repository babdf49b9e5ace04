use cloak::errors::CloakError;
use cloak::status::LinkHealth;
use cloak::steps::LinkFallback;
use cloak::steps::classify_entry;
use cloak::steps::create_link_decision;
use cloak::steps::egest_decision;
use cloak::steps::ingest_decision;
use cloak::steps::link_fallback_decision;
use cloak::steps::remove_link_decision;

#[test]
fn ingest_decisions_match_error_taxonomy() {
    assert_eq!(ingest_decision(true, false), Ok(()));
    assert_eq!(ingest_decision(false, false), Err(CloakError::NotFound));
    assert_eq!(ingest_decision(false, true), Err(CloakError::NotFound));
    assert_eq!(ingest_decision(true, true), Err(CloakError::Conflict));
}

#[test]
fn egest_decisions_match_error_taxonomy() {
    assert_eq!(egest_decision(true, false), Ok(()));
    assert_eq!(egest_decision(false, false), Err(CloakError::NotFound));
    assert_eq!(egest_decision(true, true), Err(CloakError::Conflict));
}

#[test]
fn link_decisions_match_error_taxonomy() {
    assert_eq!(create_link_decision(false, true), Ok(()));
    assert_eq!(create_link_decision(true, true), Err(CloakError::Conflict));
    assert_eq!(create_link_decision(false, false), Err(CloakError::NotFound));
    assert_eq!(remove_link_decision(true, true), Ok(()));
    assert_eq!(remove_link_decision(false, false), Err(CloakError::NotFound));
    assert_eq!(remove_link_decision(true, false), Err(CloakError::TypeMismatch));
}

#[test]
fn junction_fallback_only_for_privilege_denied_directories() {
    assert_eq!(link_fallback_decision(true, true), LinkFallback::Junction);
    assert_eq!(link_fallback_decision(true, false), LinkFallback::Surface);
    assert_eq!(link_fallback_decision(false, true), LinkFallback::Surface);
    assert_eq!(link_fallback_decision(false, false), LinkFallback::Surface);
}

#[test]
fn classification_covers_all_probe_outcomes() {
    assert_eq!(classify_entry(true, true), Some(LinkHealth::Linked));
    assert_eq!(classify_entry(true, false), Some(LinkHealth::Broken));
    assert_eq!(classify_entry(false, true), Some(LinkHealth::Orphaned));
    assert_eq!(classify_entry(false, false), None);
}

#[test]
fn errors_carry_a_diagnostic_label() {
    assert_eq!(CloakError::TypeMismatch.describe(), "path is not a symlink");
    assert!(!CloakError::Conflict.describe().is_empty());
    assert!(!CloakError::NotFound.describe().is_empty());
}
