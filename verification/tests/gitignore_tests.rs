use cloak::gitignore::add_ignore_entry;
use cloak::gitignore::ensure_gitignore_entry;
use cloak::gitignore::parse_managed_section;
use cloak::gitignore::rebuild_gitignore;
use cloak::gitignore::remove_ignore_entry;

#[test]
fn ensure_writes_storage_rules_into_empty_file() {
    let out = ensure_gitignore_entry("");
    assert!(out.contains("/.cloak/*"));
    assert!(out.contains("!/.cloak/storage/"));
}

#[test]
fn ensure_is_idempotent() {
    let once = ensure_gitignore_entry("target/\n");
    let twice = ensure_gitignore_entry(&once);
    assert_eq!(once, twice);
    assert!(once.starts_with("target/\n"));
}

#[test]
fn ensure_migrates_legacy_pattern() {
    let input = "# Cloak storage\n.cloak/\ntarget/\n";
    let out = ensure_gitignore_entry(input);
    assert!(!out.contains("# Cloak storage"));
    assert!(out.contains("target/\n"));
    assert!(out.contains("/.cloak/*"));
    assert!(out.contains("!/.cloak/storage/"));
    // the bare legacy form is gone; only the new anchored form remains
    for line in out.lines() {
        assert_ne!(line.trim(), ".cloak/");
    }
}

#[test]
fn add_creates_managed_block_with_anchored_entry() {
    let out = add_ignore_entry("target/\n", ".cursor");
    assert!(out.contains("# >>> cloak managed\n/.cursor\n# <<< cloak managed\n"));
    assert_eq!(parse_managed_section(&out), vec!["/.cursor".to_string()]);
}

#[test]
fn add_does_not_duplicate_existing_entry() {
    let once = add_ignore_entry("", ".cursor");
    let twice = add_ignore_entry(&once, ".cursor");
    assert_eq!(once, twice);
}

#[test]
fn remove_deletes_entry_and_drops_empty_block() {
    let with_entry = add_ignore_entry("target/\n", ".cursor");
    let removed = remove_ignore_entry(&with_entry, ".cursor");
    assert!(!removed.contains("/.cursor"));
    assert!(!removed.contains("# >>> cloak managed"));
    assert!(parse_managed_section(&removed).is_empty());
}

#[test]
fn remove_keeps_other_entries() {
    let one = add_ignore_entry("", ".cursor");
    let two = add_ignore_entry(&one, ".vscode");
    let removed = remove_ignore_entry(&two, ".cursor");
    assert_eq!(parse_managed_section(&removed), vec!["/.vscode".to_string()]);
}

#[test]
fn parse_reads_entries_between_markers_only() {
    let content = "\
before\n\
# >>> cloak managed\n\
/.cursor\n\
# a comment inside\n\
\n\
/.vscode\n\
# <<< cloak managed\n\
after\n";
    assert_eq!(
        parse_managed_section(content),
        vec!["/.cursor".to_string(), "/.vscode".to_string()]
    );
}

#[test]
fn rebuild_replaces_block_and_keeps_the_rest() {
    let content = "top\n# >>> cloak managed\n/.old\n# <<< cloak managed\nbottom\n";
    let rebuilt = rebuild_gitignore(content, &vec!["/.new".to_string()]);
    assert_eq!(
        rebuilt,
        "top\nbottom\n# >>> cloak managed\n/.new\n# <<< cloak managed\n"
    );
}
