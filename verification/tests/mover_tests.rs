use cloak::mover::MoveSpace;
use cloak::mover::copy_and_delete;
use cloak::mover::is_cross_device_error;
use cloak::mover::move_path;
use cloak::tree::FsFile;
use cloak::tree::TreeData;

fn sample_dir_tree() -> TreeData {
    TreeData {
        files: vec![
            FsFile {
                segments: vec!["settings.json".to_string()],
                bytes: b"{\"foo\":1}\n".to_vec(),
            },
            FsFile {
                segments: vec!["rules".to_string(), "style.md".to_string()],
                bytes: b"# style\nbe kind\n".to_vec(),
            },
            FsFile { segments: vec![".keep".to_string()], bytes: Vec::new() },
        ],
    }
}

fn assert_trees_identical(got: &TreeData, want: &TreeData) {
    assert_eq!(got.files.len(), want.files.len());
    for (g, w) in got.files.iter().zip(want.files.iter()) {
        assert_eq!(g.segments, w.segments);
        assert_eq!(g.bytes, w.bytes);
    }
}

#[test]
fn cross_device_move_copies_tree_and_removes_source() {
    let sp = MoveSpace { source: Some(sample_dir_tree()), dest: None, same_device: false };
    let moved = move_path(sp);
    assert!(moved.source.is_none(), "source must be fully removed");
    let dest = moved.dest.expect("destination missing after move");
    assert_trees_identical(&dest, &sample_dir_tree());
}

#[test]
fn same_device_move_is_a_rename() {
    let sp = MoveSpace { source: Some(sample_dir_tree()), dest: None, same_device: true };
    let moved = move_path(sp);
    assert!(moved.source.is_none());
    assert_trees_identical(&moved.dest.expect("destination missing"), &sample_dir_tree());
}

#[test]
fn copy_and_delete_preserves_bytes() {
    let sp = MoveSpace { source: Some(sample_dir_tree()), dest: None, same_device: false };
    let moved = copy_and_delete(sp);
    assert!(moved.source.is_none());
    assert_trees_identical(&moved.dest.expect("destination missing"), &sample_dir_tree());
}

#[test]
fn cross_device_errors_are_recognized() {
    assert!(is_cross_device_error(true, None));
    assert!(is_cross_device_error(false, Some(18)));
    assert!(!is_cross_device_error(false, Some(13)));
    assert!(!is_cross_device_error(false, None));
}
