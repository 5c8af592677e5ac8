//! The activation state machine, exercised end to end on concrete trees.

use mod_manager::fsmodel::Fs;
use mod_manager::strategy::{toggle_generic_rename, toggle_mod, toggle_wuthering_waves, ModError};

fn comp(s: &str) -> Vec<u8> {
    s.as_bytes().to_vec()
}

fn path(parts: &[&str]) -> Vec<Vec<u8>> {
    parts.iter().map(|p| comp(p)).collect()
}

fn joined(root: &[&str], name: &str) -> Vec<Vec<u8>> {
    let mut r = path(root);
    r.push(comp(name));
    r
}

/// A managed root at /games/mods with one mod folder holding one file.
fn setup_root_with_mod(name: &str) -> (Fs, Vec<Vec<u8>>) {
    let mut fs = Fs::empty();
    let root = path(&["games", "mods"]);
    assert!(fs.create_dir_all(&root).is_ok());
    let mod_path = joined(&["games", "mods"], name);
    assert!(fs.create_dir_all(&mod_path).is_ok());
    let mut file = mod_path.clone();
    file.push(comp("skin.ini"));
    assert!(fs.write_file(&file, b"content".to_vec()).is_ok());
    (fs, root)
}

#[test]
fn relocate_scenario_moves_mod_to_holding_and_back() {
    let (mut fs, root) = setup_root_with_mod("SkinPack");
    let active = joined(&["games", "mods"], "SkinPack");
    let parked = path(&["games", "mods", "_Disabled", "SkinPack"]);

    assert!(fs.exists_at(&active));
    assert!(!fs.exists_at(&parked));

    let r = toggle_mod(
        &mut fs,
        &root,
        &comp("SkinPack"),
        false,
        &comp("generic_rename"),
        &comp("_Disabled"),
    );
    assert_eq!(r, Ok(()));
    assert!(!fs.exists_at(&active));
    assert!(fs.exists_at(&parked));
    // The file inside travelled with the folder.
    let mut parked_file = parked.clone();
    parked_file.push(comp("skin.ini"));
    assert_eq!(fs.read_file(&parked_file), Some(b"content".to_vec()));

    let r = toggle_mod(
        &mut fs,
        &root,
        &comp("SkinPack"),
        true,
        &comp("generic_rename"),
        &comp("_Disabled"),
    );
    assert_eq!(r, Ok(()));
    assert!(fs.exists_at(&active));
    assert!(!fs.exists_at(&parked));
}

#[test]
fn relocate_disable_twice_is_idempotent() {
    let (mut fs, root) = setup_root_with_mod("SkinPack");
    let active = joined(&["games", "mods"], "SkinPack");
    let parked = path(&["games", "mods", "_Disabled", "SkinPack"]);

    let r1 = toggle_mod(
        &mut fs,
        &root,
        &comp("SkinPack"),
        false,
        &comp("generic_rename"),
        &comp("_Disabled"),
    );
    assert_eq!(r1, Ok(()));
    let entries_after_first = fs.entries.len();
    let log_after_first = fs.log.len();

    let r2 = toggle_mod(
        &mut fs,
        &root,
        &comp("SkinPack"),
        false,
        &comp("generic_rename"),
        &comp("_Disabled"),
    );
    assert_eq!(r2, Ok(()));
    assert_eq!(fs.entries.len(), entries_after_first);
    assert_eq!(fs.log.len(), log_after_first);
    assert!(!fs.exists_at(&active));
    assert!(fs.exists_at(&parked));
}

#[test]
fn toggle_missing_mod_reports_not_found() {
    let mut fs = Fs::empty();
    let root = path(&["games", "mods"]);
    assert!(fs.create_dir_all(&root).is_ok());
    let r = toggle_mod(
        &mut fs,
        &root,
        &comp("Ghost"),
        false,
        &comp("generic_rename"),
        &comp("_Disabled"),
    );
    assert_eq!(r, Err(ModError::NotFound));
}

#[test]
fn toggle_unknown_strategy_is_refused() {
    let (mut fs, root) = setup_root_with_mod("SkinPack");
    let r = toggle_mod(
        &mut fs,
        &root,
        &comp("SkinPack"),
        false,
        &comp("mystery"),
        &comp("_Disabled"),
    );
    assert_eq!(r, Err(ModError::UnknownStrategy));
}

#[test]
fn toggle_invalid_name_is_refused() {
    let (mut fs, root) = setup_root_with_mod("SkinPack");
    let r = toggle_mod(
        &mut fs,
        &root,
        &comp("../evil"),
        false,
        &comp("generic_rename"),
        &comp("_Disabled"),
    );
    assert_eq!(r, Err(ModError::InvalidName));
    let r = toggle_mod(
        &mut fs,
        &root,
        &comp(".."),
        false,
        &comp("generic_rename"),
        &comp("_Disabled"),
    );
    assert_eq!(r, Err(ModError::InvalidName));
}

#[test]
fn rewrite_disable_renames_matching_files_only() {
    let mut fs = Fs::empty();
    let mod_path = path(&["games", "mods", "SkinPack"]);
    assert!(fs.create_dir_all(&mod_path).is_ok());
    let ini = joined(&["games", "mods", "SkinPack"], "skin.ini");
    let txt = joined(&["games", "mods", "SkinPack"], "readme.txt");
    let sub = path(&["games", "mods", "SkinPack", "sub"]);
    let sub_ini = path(&["games", "mods", "SkinPack", "sub", "deep.ini"]);
    assert!(fs.write_file(&ini, b"a".to_vec()).is_ok());
    assert!(fs.write_file(&txt, b"b".to_vec()).is_ok());
    assert!(fs.create_dir_all(&sub).is_ok());
    assert!(fs.write_file(&sub_ini, b"c".to_vec()).is_ok());

    let r = toggle_wuthering_waves(&mut fs, &mod_path, false);
    assert_eq!(r, Ok(()));

    let ini_bak = joined(&["games", "mods", "SkinPack"], "skin.ini.bak");
    let sub_ini_bak = path(&["games", "mods", "SkinPack", "sub", "deep.ini.bak"]);
    assert!(!fs.exists_at(&ini));
    assert_eq!(fs.read_file(&ini_bak), Some(b"a".to_vec()));
    assert_eq!(fs.read_file(&txt), Some(b"b".to_vec()));
    assert!(!fs.exists_at(&sub_ini));
    assert_eq!(fs.read_file(&sub_ini_bak), Some(b"c".to_vec()));
}

#[test]
fn rewrite_round_trip_restores_names_and_contents() {
    let mut fs = Fs::empty();
    let mod_path = path(&["games", "mods", "SkinPack"]);
    assert!(fs.create_dir_all(&mod_path).is_ok());
    let ini = joined(&["games", "mods", "SkinPack"], "skin.ini");
    let txt = joined(&["games", "mods", "SkinPack"], "readme.txt");
    assert!(fs.write_file(&ini, b"payload".to_vec()).is_ok());
    assert!(fs.write_file(&txt, b"notes".to_vec()).is_ok());

    assert_eq!(toggle_wuthering_waves(&mut fs, &mod_path, false), Ok(()));
    assert_eq!(toggle_wuthering_waves(&mut fs, &mod_path, true), Ok(()));

    assert_eq!(fs.read_file(&ini), Some(b"payload".to_vec()));
    assert_eq!(fs.read_file(&txt), Some(b"notes".to_vec()));
    let ini_bak = joined(&["games", "mods", "SkinPack"], "skin.ini.bak");
    assert!(!fs.exists_at(&ini_bak));
}

#[test]
fn rewrite_enable_leaves_unrelated_bak_files_alone() {
    let mut fs = Fs::empty();
    let mod_path = path(&["games", "mods", "SkinPack"]);
    assert!(fs.create_dir_all(&mod_path).is_ok());
    // The suffix alone does not qualify: the stem must still end with
    // the target extension.
    let other = joined(&["games", "mods", "SkinPack"], "save.dat.bak");
    assert!(fs.write_file(&other, b"x".to_vec()).is_ok());

    assert_eq!(toggle_wuthering_waves(&mut fs, &mod_path, true), Ok(()));
    assert_eq!(fs.read_file(&other), Some(b"x".to_vec()));
}

#[test]
fn rewrite_collision_is_refused_without_changes() {
    let mut fs = Fs::empty();
    let mod_path = path(&["games", "mods", "SkinPack"]);
    assert!(fs.create_dir_all(&mod_path).is_ok());
    let ini = joined(&["games", "mods", "SkinPack"], "skin.ini");
    let bak = joined(&["games", "mods", "SkinPack"], "skin.ini.bak");
    assert!(fs.write_file(&ini, b"new".to_vec()).is_ok());
    assert!(fs.write_file(&bak, b"old".to_vec()).is_ok());

    let r = toggle_wuthering_waves(&mut fs, &mod_path, false);
    assert_eq!(r, Err(ModError::AlreadyExists));
    assert_eq!(fs.read_file(&ini), Some(b"new".to_vec()));
    assert_eq!(fs.read_file(&bak), Some(b"old".to_vec()));
}

#[test]
fn rewrite_missing_folder_reports_not_found() {
    let mut fs = Fs::empty();
    let mod_path = path(&["games", "mods", "Ghost"]);
    assert_eq!(
        toggle_wuthering_waves(&mut fs, &mod_path, false),
        Err(ModError::NotFound)
    );
}

#[test]
fn relocate_enable_from_holding() {
    let mut fs = Fs::empty();
    let root = path(&["r"]);
    let parked = path(&["r", "_Disabled", "M"]);
    assert!(fs.create_dir_all(&parked).is_ok());
    let r = toggle_generic_rename(&mut fs, &root, &comp("M"), true, &comp("_Disabled"));
    assert_eq!(r, Ok(()));
    assert!(fs.exists_at(&path(&["r", "M"])));
    assert!(!fs.exists_at(&parked));
}

#[test]
fn toggle_dispatches_to_the_rewrite_strategy() {
    let mut fs = Fs::empty();
    let root = path(&["games", "mods"]);
    let mod_path = path(&["games", "mods", "SkinPack"]);
    assert!(fs.create_dir_all(&mod_path).is_ok());
    let ini = joined(&["games", "mods", "SkinPack"], "skin.ini");
    assert!(fs.write_file(&ini, b"a".to_vec()).is_ok());

    let r = toggle_mod(
        &mut fs,
        &root,
        &comp("SkinPack"),
        false,
        &comp("wuthering_waves"),
        &comp("_Disabled"),
    );
    assert_eq!(r, Ok(()));
    // The folder stays put; the file inside carries the suffix.
    assert!(fs.exists_at(&mod_path));
    assert!(!fs.exists_at(&ini));
    assert!(fs.exists_at(&joined(&["games", "mods", "SkinPack"], "skin.ini.bak")));
}

#[test]
fn relocate_holding_folder_is_created_on_demand() {
    let (mut fs, root) = setup_root_with_mod("SkinPack");
    assert!(!fs.exists_at(&path(&["games", "mods", "_Disabled"])));
    let r = toggle_mod(
        &mut fs,
        &root,
        &comp("SkinPack"),
        false,
        &comp("generic_rename"),
        &comp("_Disabled"),
    );
    assert_eq!(r, Ok(()));
    assert!(fs.is_dir_at(&path(&["games", "mods", "_Disabled"])));
}
