//! The filesystem model's primitives and its action log.

use mod_manager::fsmodel::{Fs, FsAction};

fn comp(s: &str) -> Vec<u8> {
    s.as_bytes().to_vec()
}

fn path(parts: &[&str]) -> Vec<Vec<u8>> {
    parts.iter().map(|p| comp(p)).collect()
}

#[test]
fn empty_model_has_nothing() {
    let fs = Fs::empty();
    assert!(!fs.exists_at(&path(&["a"])));
    assert!(fs.entries.is_empty());
    assert!(fs.log.is_empty());
}

#[test]
fn create_dir_all_makes_the_whole_chain() {
    let mut fs = Fs::empty();
    assert!(fs.create_dir_all(&path(&["a", "b", "c"])).is_ok());
    assert!(fs.is_dir_at(&path(&["a"])));
    assert!(fs.is_dir_at(&path(&["a", "b"])));
    assert!(fs.is_dir_at(&path(&["a", "b", "c"])));
}

#[test]
fn create_dir_all_through_a_file_is_refused() {
    let mut fs = Fs::empty();
    assert!(fs.create_dir_all(&path(&["a"])).is_ok());
    assert!(fs.write_file(&path(&["a", "f"]), b"x".to_vec()).is_ok());
    assert!(fs.create_dir_all(&path(&["a", "f", "deeper"])).is_err());
    // Nothing was created on the failed call.
    assert!(!fs.exists_at(&path(&["a", "f", "deeper"])));
}

#[test]
fn write_file_replaces_a_file_but_not_a_directory() {
    let mut fs = Fs::empty();
    assert!(fs.create_dir_all(&path(&["a"])).is_ok());
    assert!(fs.write_file(&path(&["a", "f"]), b"one".to_vec()).is_ok());
    assert!(fs.write_file(&path(&["a", "f"]), b"two".to_vec()).is_ok());
    assert_eq!(fs.read_file(&path(&["a", "f"])), Some(b"two".to_vec()));
    assert!(fs.write_file(&path(&["a"]), b"nope".to_vec()).is_err());
}

#[test]
fn rename_moves_a_subtree() {
    let mut fs = Fs::empty();
    assert!(fs.create_dir_all(&path(&["a", "b"])).is_ok());
    assert!(fs.write_file(&path(&["a", "b", "f"]), b"x".to_vec()).is_ok());
    assert!(fs.create_dir_all(&path(&["c"])).is_ok());
    assert!(fs.rename(&path(&["a", "b"]), &path(&["c", "d"])).is_ok());
    assert!(!fs.exists_at(&path(&["a", "b"])));
    assert_eq!(fs.read_file(&path(&["c", "d", "f"])), Some(b"x".to_vec()));
}

#[test]
fn rename_onto_occupied_target_is_refused() {
    let mut fs = Fs::empty();
    assert!(fs.create_dir_all(&path(&["a"])).is_ok());
    assert!(fs.create_dir_all(&path(&["b"])).is_ok());
    assert!(fs.rename(&path(&["a"]), &path(&["b"])).is_err());
    assert!(fs.exists_at(&path(&["a"])));
}

#[test]
fn remove_all_takes_the_subtree_and_reports_a_missing_path() {
    let mut fs = Fs::empty();
    assert!(fs.create_dir_all(&path(&["a", "b"])).is_ok());
    assert!(fs.write_file(&path(&["a", "b", "f"]), b"x".to_vec()).is_ok());
    assert!(fs.remove_all(&path(&["a", "b"])).is_ok());
    assert!(!fs.exists_at(&path(&["a", "b"])));
    assert!(!fs.exists_at(&path(&["a", "b", "f"])));
    assert!(fs.exists_at(&path(&["a"])));
    assert!(fs.remove_all(&path(&["a", "b"])).is_err());
}

#[test]
fn the_log_records_actions_in_replay_order() {
    let mut fs = Fs::empty();
    assert!(fs.create_dir_all(&path(&["a"])).is_ok());
    assert!(fs.write_file(&path(&["a", "f"]), b"x".to_vec()).is_ok());
    assert!(fs.rename(&path(&["a", "f"]), &path(&["a", "g"])).is_ok());
    assert!(fs.remove_all(&path(&["a", "g"])).is_ok());
    assert_eq!(fs.log.len(), 4);
    assert!(matches!(fs.log[0], FsAction::CreateDirAll { .. }));
    assert!(matches!(fs.log[1], FsAction::WriteFile { .. }));
    assert!(matches!(fs.log[2], FsAction::Rename { .. }));
    assert!(matches!(fs.log[3], FsAction::RemoveAll { .. }));
}
