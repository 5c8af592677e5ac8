//! Deleting, renaming, copying and moving whole mod folders.

use mod_manager::fsmodel::Fs;
use mod_manager::ops::{copy_mod, delete_mod, move_mod, rename_mod};
use mod_manager::strategy::ModError;

fn comp(s: &str) -> Vec<u8> {
    s.as_bytes().to_vec()
}

fn path(parts: &[&str]) -> Vec<Vec<u8>> {
    parts.iter().map(|p| comp(p)).collect()
}

fn mod_with_file(fs: &mut Fs, folder: &[&str], file: &str, data: &[u8]) {
    let f = path(folder);
    assert!(fs.create_dir_all(&f).is_ok());
    let mut fp = f.clone();
    fp.push(comp(file));
    assert!(fs.write_file(&fp, data.to_vec()).is_ok());
}

#[test]
fn delete_mod_removes_whole_subtree() {
    let mut fs = Fs::empty();
    mod_with_file(&mut fs, &["r", "M"], "a.ini", b"x");
    assert_eq!(delete_mod(&mut fs, &path(&["r"]), &comp("M")), Ok(()));
    assert!(!fs.exists_at(&path(&["r", "M"])));
    assert!(!fs.exists_at(&path(&["r", "M", "a.ini"])));
    assert!(fs.exists_at(&path(&["r"])));
}

#[test]
fn delete_missing_mod_reports_not_found() {
    let mut fs = Fs::empty();
    assert!(fs.create_dir_all(&path(&["r"])).is_ok());
    assert_eq!(
        delete_mod(&mut fs, &path(&["r"]), &comp("M")),
        Err(ModError::NotFound)
    );
}

#[test]
fn delete_invalid_name_is_refused() {
    let mut fs = Fs::empty();
    assert_eq!(
        delete_mod(&mut fs, &path(&["r"]), &comp("a/b")),
        Err(ModError::InvalidName)
    );
}

#[test]
fn rename_mod_moves_folder_under_new_leaf() {
    let mut fs = Fs::empty();
    mod_with_file(&mut fs, &["r", "Old"], "a.ini", b"x");
    assert_eq!(
        rename_mod(&mut fs, &path(&["r"]), &comp("Old"), &comp("New")),
        Ok(())
    );
    assert!(!fs.exists_at(&path(&["r", "Old"])));
    assert_eq!(
        fs.read_file(&path(&["r", "New", "a.ini"])),
        Some(b"x".to_vec())
    );
}

#[test]
fn rename_onto_occupied_name_is_refused() {
    let mut fs = Fs::empty();
    mod_with_file(&mut fs, &["r", "Old"], "a.ini", b"x");
    mod_with_file(&mut fs, &["r", "New"], "b.ini", b"y");
    assert_eq!(
        rename_mod(&mut fs, &path(&["r"]), &comp("Old"), &comp("New")),
        Err(ModError::AlreadyExists)
    );
    assert_eq!(
        fs.read_file(&path(&["r", "New", "b.ini"])),
        Some(b"y".to_vec())
    );
}

#[test]
fn rename_missing_mod_reports_not_found() {
    let mut fs = Fs::empty();
    assert!(fs.create_dir_all(&path(&["r"])).is_ok());
    assert_eq!(
        rename_mod(&mut fs, &path(&["r"]), &comp("Old"), &comp("New")),
        Err(ModError::NotFound)
    );
}

#[test]
fn copy_mod_duplicates_tree_and_keeps_source() {
    let mut fs = Fs::empty();
    mod_with_file(&mut fs, &["elsewhere", "Pack"], "a.ini", b"data");
    assert!(fs.create_dir_all(&path(&["elsewhere", "Pack", "sub"])).is_ok());
    let mut deep = path(&["elsewhere", "Pack", "sub"]);
    deep.push(comp("d.txt"));
    assert!(fs.write_file(&deep, b"deep".to_vec()).is_ok());

    let r = copy_mod(
        &mut fs,
        &path(&["elsewhere", "Pack"]),
        &path(&["r"]),
        &comp("Pack"),
    );
    assert_eq!(r, Ok(()));
    assert_eq!(
        fs.read_file(&path(&["r", "Pack", "a.ini"])),
        Some(b"data".to_vec())
    );
    assert_eq!(
        fs.read_file(&path(&["r", "Pack", "sub", "d.txt"])),
        Some(b"deep".to_vec())
    );
    // The source is untouched.
    assert_eq!(
        fs.read_file(&path(&["elsewhere", "Pack", "a.ini"])),
        Some(b"data".to_vec())
    );
}

#[test]
fn copy_onto_occupied_destination_is_refused_and_leaves_it_alone() {
    let mut fs = Fs::empty();
    mod_with_file(&mut fs, &["elsewhere", "Pack"], "a.ini", b"new");
    mod_with_file(&mut fs, &["r", "Pack"], "keep.ini", b"old");
    let before = fs.entries.len();
    let r = copy_mod(
        &mut fs,
        &path(&["elsewhere", "Pack"]),
        &path(&["r"]),
        &comp("Pack"),
    );
    assert_eq!(r, Err(ModError::AlreadyExists));
    assert_eq!(fs.entries.len(), before);
    assert_eq!(
        fs.read_file(&path(&["r", "Pack", "keep.ini"])),
        Some(b"old".to_vec())
    );
    assert!(!fs.exists_at(&path(&["r", "Pack", "a.ini"])));
}

#[test]
fn copy_missing_source_reports_not_found() {
    let mut fs = Fs::empty();
    assert!(fs.create_dir_all(&path(&["r"])).is_ok());
    assert_eq!(
        copy_mod(&mut fs, &path(&["ghost"]), &path(&["r"]), &comp("Pack")),
        Err(ModError::NotFound)
    );
}

#[test]
fn move_mod_relocates_whole_tree() {
    let mut fs = Fs::empty();
    mod_with_file(&mut fs, &["elsewhere", "Pack"], "a.ini", b"data");
    let r = move_mod(
        &mut fs,
        &path(&["elsewhere", "Pack"]),
        &path(&["r"]),
        &comp("Pack"),
    );
    assert_eq!(r, Ok(()));
    assert!(!fs.exists_at(&path(&["elsewhere", "Pack"])));
    assert_eq!(
        fs.read_file(&path(&["r", "Pack", "a.ini"])),
        Some(b"data".to_vec())
    );
}

#[test]
fn move_onto_occupied_destination_is_refused() {
    let mut fs = Fs::empty();
    mod_with_file(&mut fs, &["elsewhere", "Pack"], "a.ini", b"new");
    mod_with_file(&mut fs, &["r", "Pack"], "keep.ini", b"old");
    let r = move_mod(
        &mut fs,
        &path(&["elsewhere", "Pack"]),
        &path(&["r"]),
        &comp("Pack"),
    );
    assert_eq!(r, Err(ModError::AlreadyExists));
    assert!(fs.exists_at(&path(&["elsewhere", "Pack", "a.ini"])));
}
