use cloak::errors::ValidationError;
use cloak::validate::validate_target;

#[test]
fn rejects_empty_name() {
    assert_eq!(validate_target(""), Err(ValidationError::Empty));
}

#[test]
fn rejects_absolute_paths() {
    assert_eq!(validate_target("/etc"), Err(ValidationError::AbsolutePath));
    assert_eq!(validate_target("\\windows"), Err(ValidationError::AbsolutePath));
    assert_eq!(validate_target("C:\\temp"), Err(ValidationError::AbsolutePath));
    assert_eq!(validate_target("d:"), Err(ValidationError::AbsolutePath));
}

#[test]
fn drive_probe_reads_the_byte_after_the_first() {
    // after a multi-byte first character the probed byte is a
    // continuation byte, never a colon, so no drive prefix is seen
    assert_eq!(validate_target("\u{e9}:"), Ok(()));
}

#[test]
fn rejects_traversal() {
    assert_eq!(validate_target(".."), Err(ValidationError::Traversal));
    assert_eq!(validate_target("../up"), Err(ValidationError::Traversal));
    assert_eq!(validate_target("a/../b"), Err(ValidationError::Traversal));
    assert_eq!(validate_target("a/.."), Err(ValidationError::Traversal));
}

#[test]
fn rejects_reserved_storage_name() {
    assert_eq!(validate_target(".cloak"), Err(ValidationError::ReservedName));
    assert_eq!(validate_target(".cloak/storage"), Err(ValidationError::ReservedName));
    assert_eq!(validate_target(".cloak\\storage"), Err(ValidationError::ReservedName));
}

#[test]
fn rejects_separators() {
    assert_eq!(validate_target("a/b"), Err(ValidationError::Separator));
    assert_eq!(validate_target("a\\b"), Err(ValidationError::Separator));
}

#[test]
fn accepts_single_segment_names() {
    assert_eq!(validate_target(".cursor"), Ok(()));
    assert_eq!(validate_target(".vscode"), Ok(()));
    assert_eq!(validate_target("notes.txt"), Ok(()));
    assert_eq!(validate_target(".cloakroom"), Ok(()));
}
