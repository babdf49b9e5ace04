use cloak::engine::drop_stored;
use cloak::engine::ensure_storage_dir;
use cloak::engine::ingest;
use cloak::errors::CloakError;
use cloak::errors::Step;
use cloak::gitignore::add_ignore_entry;
use cloak::gitignore::ensure_gitignore_entry;
use cloak::gitignore::parse_managed_section;
use cloak::gitignore::remove_ignore_entry;
use cloak::model::ProjectModel;
use cloak::model::RootSlot;
use cloak::model::Slot;
use cloak::model::StoredCopy;
use cloak::orchestrator::hide_batch;
use cloak::orchestrator::hide_target;
use cloak::orchestrator::unhide_batch;
use cloak::orchestrator::unhide_target;
use cloak::status::LinkHealth;
use cloak::status::status;
use cloak::tree::FsFile;
use cloak::tree::TreeData;

fn settings_tree() -> TreeData {
    TreeData {
        files: vec![FsFile {
            segments: vec!["settings.json".to_string()],
            bytes: b"{\"foo\":1}\n".to_vec(),
        }],
    }
}

fn fresh_model(cross_device: bool) -> ProjectModel {
    ProjectModel { storage_root: false, attrs_supported: true, cross_device, slots: Vec::new() }
}

fn slot_of<'a>(m: &'a ProjectModel, name: &str) -> &'a Slot {
    m.slots.iter().find(|s| s.name == name).expect("slot missing")
}

fn assert_restored(m: &ProjectModel, name: &str, tree: &TreeData) {
    let slot = slot_of(m, name);
    assert!(slot.stored.is_none(), "residual storage copy");
    match &slot.root {
        RootSlot::Real { data, hidden } => {
            assert!(!hidden, "residual hidden flag");
            assert_eq!(data.files.len(), tree.files.len());
            for (got, want) in data.files.iter().zip(tree.files.iter()) {
                assert_eq!(got.segments, want.segments);
                assert_eq!(got.bytes, want.bytes);
            }
        }
        _ => panic!("root entry not restored as a real entry"),
    }
}

#[test]
fn hide_then_unhide_round_trips() {
    let mut m = fresh_model(false);
    let name = ".cursor".to_string();
    cloak::engine::place_real_entry(&mut m, &name, settings_tree()).expect("place failed");

    hide_target(&mut m, &name).expect("hide failed");
    {
        let slot = slot_of(&m, ".cursor");
        assert!(matches!(slot.root, RootSlot::StorageLink { hidden: true }));
        assert!(slot.stored.is_some());
    }

    unhide_target(&mut m, &name).expect("unhide failed");
    assert_restored(&m, ".cursor", &settings_tree());
}

#[test]
fn hide_with_existing_storage_copy_is_conflict() {
    let mut m = fresh_model(false);
    m.storage_root = true;
    m.slots.push(Slot {
        name: ".cursor".to_string(),
        root: RootSlot::Real { data: settings_tree(), hidden: false },
        stored: Some(StoredCopy { data: settings_tree(), hidden: false }),
    });
    let name = ".cursor".to_string();

    let err = hide_target(&mut m, &name).expect_err("hide should fail");
    assert_eq!(err.step, Step::Ingest);
    assert_eq!(err.error, CloakError::Conflict);

    // no mutation at all
    assert!(m.storage_root);
    let slot = slot_of(&m, ".cursor");
    assert!(matches!(slot.root, RootSlot::Real { .. }));
    assert!(slot.stored.is_some());
}

#[test]
fn hide_rejects_invalid_names_before_any_side_effect() {
    let mut m = fresh_model(false);
    for bad in ["", "..", "a/b", ".cloak"] {
        let name = bad.to_string();
        let err = hide_target(&mut m, &name).expect_err("validation should fail");
        assert_eq!(err.step, Step::Validate);
        assert!(matches!(err.error, CloakError::Validation(_)));
        assert!(!m.storage_root);
        assert!(m.slots.is_empty());
    }
}

#[test]
fn unhide_refuses_when_original_path_is_not_link() {
    let mut m = fresh_model(false);
    m.storage_root = true;
    // the operator replaced the link with a real directory after hiding
    m.slots.push(Slot {
        name: ".cursor".to_string(),
        root: RootSlot::Real {
            data: TreeData {
                files: vec![FsFile {
                    segments: vec!["local.txt".to_string()],
                    bytes: b"conflict\n".to_vec(),
                }],
            },
            hidden: false,
        },
        stored: Some(StoredCopy { data: settings_tree(), hidden: false }),
    });
    let name = ".cursor".to_string();

    let err = unhide_target(&mut m, &name).expect_err("unhide should fail");
    assert_eq!(err.step, Step::Unlink);
    assert_eq!(err.error, CloakError::TypeMismatch);

    // the storage copy is untouched
    let slot = slot_of(&m, ".cursor");
    let stored = slot.stored.as_ref().expect("storage copy should remain after failed unhide");
    assert_eq!(stored.data.files[0].bytes, b"{\"foo\":1}\n".to_vec());
}

#[test]
fn status_reports_orphaned_symlink() {
    let mut m = fresh_model(false);
    let name = ".cursor".to_string();
    cloak::engine::place_real_entry(&mut m, &name, settings_tree()).expect("place failed");
    hide_target(&mut m, &name).expect("hide failed");

    let report = status(&m);
    assert_eq!(report.len(), 1);
    assert_eq!(report[0].name, ".cursor");
    assert_eq!(report[0].health, LinkHealth::Linked);

    // the storage copy disappears behind the engine's back
    drop_stored(&mut m, &name).expect("drop failed");
    let report = status(&m);
    assert_eq!(report.len(), 1);
    assert_eq!(report[0].name, ".cursor");
    assert_eq!(report[0].health, LinkHealth::Orphaned);
}

#[test]
fn status_reports_broken_when_link_is_gone() {
    let mut m = fresh_model(false);
    m.storage_root = true;
    m.slots.push(Slot {
        name: ".idea".to_string(),
        root: RootSlot::Empty,
        stored: Some(StoredCopy { data: settings_tree(), hidden: false }),
    });
    let report = status(&m);
    assert_eq!(report.len(), 1);
    assert_eq!(report[0].name, ".idea");
    assert_eq!(report[0].health, LinkHealth::Broken);
}

#[test]
fn hide_and_unhide_work_with_cross_device_storage_symlink() {
    // storage lies on another device, so every move is copy-then-delete
    let mut m = fresh_model(true);
    let name = ".cursor".to_string();
    cloak::engine::place_real_entry(&mut m, &name, settings_tree()).expect("place failed");

    hide_target(&mut m, &name).expect("hide failed");
    {
        let slot = slot_of(&m, ".cursor");
        let stored = slot.stored.as_ref().expect("cross-device storage target missing after hide");
        assert_eq!(stored.data.files[0].bytes, b"{\"foo\":1}\n".to_vec());
    }

    unhide_target(&mut m, &name).expect("unhide failed");
    assert_restored(&m, ".cursor", &settings_tree());
}

#[test]
fn unhide_of_orphaned_link_removes_link_then_reports_missing_storage() {
    let mut m = fresh_model(false);
    m.storage_root = true;
    m.slots.push(Slot {
        name: ".cursor".to_string(),
        root: RootSlot::StorageLink { hidden: true },
        stored: None,
    });
    let name = ".cursor".to_string();

    let err = unhide_target(&mut m, &name).expect_err("unhide should fail");
    assert_eq!(err.step, Step::Egest);
    assert_eq!(err.error, CloakError::NotFound);

    // the dangling link was removed before the missing copy was noticed
    let slot = slot_of(&m, ".cursor");
    assert!(matches!(slot.root, RootSlot::Empty));
    assert!(slot.stored.is_none());
}

#[test]
fn ingest_requires_existing_source() {
    let mut m = fresh_model(false);
    let name = ".cursor".to_string();
    assert_eq!(ingest(&mut m, &name), Err(CloakError::NotFound));
}

#[test]
fn batch_with_one_bad_name_changes_nothing() {
    let mut m = fresh_model(false);
    let good = ".cursor".to_string();
    cloak::engine::place_real_entry(&mut m, &good, settings_tree()).expect("place failed");
    m.storage_root = false;

    let names = vec![".cursor".to_string(), "a/b".to_string(), ".vscode".to_string()];
    let err = hide_batch(&mut m, &names).expect_err("batch should fail validation");
    assert_eq!(err.index, 1);
    assert_eq!(err.failure.step, Step::Validate);

    // zero side effects: nothing was hidden, storage was not created
    assert!(!m.storage_root);
    let slot = slot_of(&m, ".cursor");
    assert!(matches!(slot.root, RootSlot::Real { .. }));
    assert!(slot.stored.is_none());
}

#[test]
fn batch_failure_leaves_earlier_targets_migrated_and_later_untouched() {
    let mut m = fresh_model(false);
    let first = ".cursor".to_string();
    let third = ".vscode".to_string();
    cloak::engine::place_real_entry(&mut m, &first, settings_tree()).expect("place failed");
    cloak::engine::place_real_entry(&mut m, &third, settings_tree()).expect("place failed");

    // the middle target does not exist at the root
    let names = vec![".cursor".to_string(), ".idea".to_string(), ".vscode".to_string()];
    let err = hide_batch(&mut m, &names).expect_err("batch should fail on the missing target");
    assert_eq!(err.index, 1);
    assert_eq!(err.failure.step, Step::Ingest);
    assert_eq!(err.failure.error, CloakError::NotFound);

    // first fully migrated, third untouched
    let slot = slot_of(&m, ".cursor");
    assert!(matches!(slot.root, RootSlot::StorageLink { .. }));
    assert!(slot.stored.is_some());
    let slot = slot_of(&m, ".vscode");
    assert!(matches!(slot.root, RootSlot::Real { .. }));
    assert!(slot.stored.is_none());
}

#[test]
fn batch_with_repeated_name_hides_once_then_reports_conflict() {
    let mut m = fresh_model(false);
    let name = ".cursor".to_string();
    cloak::engine::place_real_entry(&mut m, &name, settings_tree()).expect("place failed");

    let names = vec![".cursor".to_string(), ".cursor".to_string()];
    let err = hide_batch(&mut m, &names).expect_err("second occurrence must conflict");
    assert_eq!(err.index, 1);
    assert_eq!(err.failure.step, Step::Ingest);
    assert_eq!(err.failure.error, CloakError::Conflict);

    // the first occurrence was fully migrated and stays that way
    let slot = slot_of(&m, ".cursor");
    assert!(matches!(slot.root, RootSlot::StorageLink { .. }));
    assert!(slot.stored.is_some());
}

#[test]
fn batch_hide_then_batch_unhide_restores_all() {
    let mut m = fresh_model(false);
    let names = vec![".cursor".to_string(), ".vscode".to_string()];
    for n in &names {
        cloak::engine::place_real_entry(&mut m, n, settings_tree()).expect("place failed");
    }
    hide_batch(&mut m, &names).expect("batch hide failed");
    for n in &names {
        let slot = slot_of(&m, n);
        assert!(matches!(slot.root, RootSlot::StorageLink { .. }));
    }
    unhide_batch(&mut m, &names).expect("batch unhide failed");
    for n in &names {
        assert_restored(&m, n, &settings_tree());
    }
}

#[test]
fn init_creates_storage_and_gitignore_rules() {
    let mut m = fresh_model(false);
    let mut gitignore = String::new();

    ensure_storage_dir(&mut m);
    gitignore = ensure_gitignore_entry(&gitignore);

    assert!(m.storage_root);
    assert!(gitignore.contains("/.cloak/*"));
    assert!(gitignore.contains("!/.cloak/storage/"));
}

#[test]
fn full_hide_unhide_scenario_with_ignore_file() {
    // fresh project root, then init
    let mut m = fresh_model(false);
    let mut gitignore = String::new();
    ensure_storage_dir(&mut m);
    gitignore = ensure_gitignore_entry(&gitignore);
    assert!(m.storage_root);
    assert!(gitignore.contains("/.cloak/*"));

    // hide .cursor carrying settings.json with {"foo":1}
    let name = ".cursor".to_string();
    cloak::engine::place_real_entry(&mut m, &name, settings_tree()).expect("place failed");
    hide_target(&mut m, &name).expect("hide failed");
    gitignore = add_ignore_entry(&gitignore, ".cursor");

    let slot = slot_of(&m, ".cursor");
    assert!(matches!(slot.root, RootSlot::StorageLink { .. }));
    let stored = slot.stored.as_ref().expect("storage copy missing");
    assert_eq!(stored.data.files[0].segments, vec!["settings.json".to_string()]);
    assert_eq!(stored.data.files[0].bytes, b"{\"foo\":1}\n".to_vec());
    assert!(parse_managed_section(&gitignore).contains(&"/.cursor".to_string()));

    // unhide restores everything and clears the managed entry
    unhide_target(&mut m, &name).expect("unhide failed");
    gitignore = remove_ignore_entry(&gitignore, ".cursor");

    assert_restored(&m, ".cursor", &settings_tree());
    assert!(!parse_managed_section(&gitignore).contains(&"/.cursor".to_string()));
}
