//! Bulk toggling and deletion over lists of mods.

use mod_manager::bulk::{delete_mods_bulk, toggle_mods_bulk};
use mod_manager::fsmodel::Fs;
use mod_manager::strategy::ModError;

fn comp(s: &str) -> Vec<u8> {
    s.as_bytes().to_vec()
}

fn path(parts: &[&str]) -> Vec<Vec<u8>> {
    parts.iter().map(|p| comp(p)).collect()
}

#[test]
fn bulk_toggle_reports_only_the_missing_mod_and_toggles_the_rest() {
    let mut fs = Fs::empty();
    let root = path(&["games", "mods"]);
    assert!(fs.create_dir_all(&path(&["games", "mods", "A"])).is_ok());
    assert!(fs.create_dir_all(&path(&["games", "mods", "C"])).is_ok());

    let names = vec![comp("A"), comp("B"), comp("C")];
    let errors = toggle_mods_bulk(
        &mut fs,
        &root,
        &names,
        false,
        &comp("generic_rename"),
        &comp("_Disabled"),
    );

    assert_eq!(errors.len(), 1);
    assert_eq!(errors[0].0, comp("B"));
    assert_eq!(errors[0].1, ModError::NotFound);
    // Both other mods reached the requested state.
    assert!(fs.exists_at(&path(&["games", "mods", "_Disabled", "A"])));
    assert!(fs.exists_at(&path(&["games", "mods", "_Disabled", "C"])));
    assert!(!fs.exists_at(&path(&["games", "mods", "A"])));
    assert!(!fs.exists_at(&path(&["games", "mods", "C"])));
}

#[test]
fn bulk_toggle_with_no_failures_reports_nothing() {
    let mut fs = Fs::empty();
    let root = path(&["r"]);
    assert!(fs.create_dir_all(&path(&["r", "A"])).is_ok());
    let names = vec![comp("A")];
    let errors = toggle_mods_bulk(
        &mut fs,
        &root,
        &names,
        false,
        &comp("generic_rename"),
        &comp("_Disabled"),
    );
    assert!(errors.is_empty());
}

#[test]
fn bulk_delete_continues_past_failures() {
    let mut fs = Fs::empty();
    let root = path(&["r"]);
    assert!(fs.create_dir_all(&path(&["r", "A"])).is_ok());
    assert!(fs.create_dir_all(&path(&["r", "C"])).is_ok());
    let names = vec![comp("A"), comp("B"), comp("C")];
    let errors = delete_mods_bulk(&mut fs, &root, &names);
    assert_eq!(errors.len(), 1);
    assert_eq!(errors[0].0, comp("B"));
    assert_eq!(errors[0].1, ModError::NotFound);
    assert!(!fs.exists_at(&path(&["r", "A"])));
    assert!(!fs.exists_at(&path(&["r", "C"])));
}
