//! Archive extraction into fresh mod folders, with real archives built
//! in memory.

use std::io::Write;

use mod_manager::fsmodel::Fs;
use mod_manager::ingest::{extract_archive, ingest_entries, sanitize_entry_name, ArchiveEntry};
use mod_manager::strategy::ModError;
use zip::write::SimpleFileOptions;

fn comp(s: &str) -> Vec<u8> {
    s.as_bytes().to_vec()
}

fn path(parts: &[&str]) -> Vec<Vec<u8>> {
    parts.iter().map(|p| comp(p)).collect()
}

fn build_zip(entries: &[(&str, Option<&[u8]>)]) -> Vec<u8> {
    let cursor = std::io::Cursor::new(Vec::new());
    let mut writer = zip::ZipWriter::new(cursor);
    let options = SimpleFileOptions::default();
    for (name, data) in entries {
        match data {
            Some(bytes) => {
                writer.start_file(*name, options).unwrap();
                writer.write_all(bytes).unwrap();
            }
            None => {
                writer.add_directory(*name, options).unwrap();
            }
        }
    }
    writer.finish().unwrap().into_inner()
}

#[test]
fn extract_materialises_files_and_directories() {
    let bytes = build_zip(&[
        ("a.ini", Some(b"alpha")),
        ("sub/", None),
        ("sub/b.txt", Some(b"beta")),
    ]);
    let mut fs = Fs::empty();
    assert!(fs.create_dir_all(&path(&["r"])).is_ok());
    let (r, progress) = extract_archive(&mut fs, bytes, &path(&["r"]), &comp("Pack"));
    assert_eq!(r, Ok(()));
    assert_eq!(
        fs.read_file(&path(&["r", "Pack", "a.ini"])),
        Some(b"alpha".to_vec())
    );
    assert!(fs.is_dir_at(&path(&["r", "Pack", "sub"])));
    assert_eq!(
        fs.read_file(&path(&["r", "Pack", "sub", "b.txt"])),
        Some(b"beta".to_vec())
    );
    // floor(k / 3 * 100) after each of the three entries
    assert_eq!(progress, vec![33, 66, 100]);
}

#[test]
fn extract_progress_is_non_decreasing_and_ends_at_full() {
    let bytes = build_zip(&[("a", Some(b"1")), ("b", Some(b"2"))]);
    let mut fs = Fs::empty();
    let (r, progress) = extract_archive(&mut fs, bytes, &path(&["r"]), &comp("Pack"));
    assert_eq!(r, Ok(()));
    assert_eq!(progress, vec![50, 100]);
    for w in progress.windows(2) {
        assert!(w[0] <= w[1]);
    }
}

#[test]
fn extract_onto_occupied_destination_is_refused_and_leaves_it_alone() {
    let bytes = build_zip(&[("a.ini", Some(b"new"))]);
    let mut fs = Fs::empty();
    assert!(fs.create_dir_all(&path(&["r", "Pack"])).is_ok());
    let mut keep = path(&["r", "Pack"]);
    keep.push(comp("keep.ini"));
    assert!(fs.write_file(&keep, b"old".to_vec()).is_ok());
    let before = fs.entries.len();

    let (r, progress) = extract_archive(&mut fs, bytes, &path(&["r"]), &comp("Pack"));
    assert_eq!(r, Err(ModError::AlreadyExists));
    assert!(progress.is_empty());
    assert_eq!(fs.entries.len(), before);
    assert_eq!(fs.read_file(&keep), Some(b"old".to_vec()));
    assert!(!fs.exists_at(&path(&["r", "Pack", "a.ini"])));
}

#[test]
fn traversal_entry_is_skipped_and_escapes_nothing() {
    let bytes = build_zip(&[
        ("../../evil", Some(b"boom")),
        ("good.ini", Some(b"fine")),
    ]);
    let mut fs = Fs::empty();
    assert!(fs.create_dir_all(&path(&["r"])).is_ok());
    let before_outside = fs.entries.len();

    let (r, _) = extract_archive(&mut fs, bytes, &path(&["r"]), &comp("Pack"));
    assert_eq!(r, Ok(()));
    assert!(!fs.exists_at(&path(&["evil"])));
    assert!(!fs.exists_at(&path(&["r", "evil"])));
    assert!(!fs.exists_at(&path(&["r", "Pack", "evil"])));
    assert_eq!(
        fs.read_file(&path(&["r", "Pack", "good.ini"])),
        Some(b"fine".to_vec())
    );
    // Everything new sits at or below the destination.
    for e in fs.entries.iter().skip(before_outside) {
        assert!(e.path.len() >= 2);
        assert_eq!(e.path[0], comp("r"));
        assert_eq!(e.path[1], comp("Pack"));
    }
}

#[test]
fn unreadable_archive_is_reported_and_changes_nothing() {
    let mut fs = Fs::empty();
    assert!(fs.create_dir_all(&path(&["r"])).is_ok());
    let before = fs.entries.len();
    let (r, progress) = extract_archive(
        &mut fs,
        b"this is no archive at all".to_vec(),
        &path(&["r"]),
        &comp("Pack"),
    );
    assert_eq!(r, Err(ModError::ArchiveCorrupt));
    assert!(progress.is_empty());
    assert_eq!(fs.entries.len(), before);
}

#[test]
fn extract_invalid_destination_name_is_refused() {
    let bytes = build_zip(&[("a", Some(b"1"))]);
    let mut fs = Fs::empty();
    let (r, _) = extract_archive(&mut fs, bytes, &path(&["r"]), &comp("a/b"));
    assert_eq!(r, Err(ModError::InvalidName));
}

#[test]
fn sanitize_rejects_parent_components_and_cleans_noise() {
    assert_eq!(sanitize_entry_name(&comp("../../evil")), None);
    assert_eq!(sanitize_entry_name(&comp("a/../b")), None);
    assert_eq!(sanitize_entry_name(&comp("")), None);
    assert_eq!(sanitize_entry_name(&comp("///")), None);
    assert_eq!(
        sanitize_entry_name(&comp("a//.//b")),
        Some(vec![comp("a"), comp("b")])
    );
    assert_eq!(
        sanitize_entry_name(&comp("a\\b/c")),
        Some(vec![comp("a"), comp("b"), comp("c")])
    );
    assert_eq!(sanitize_entry_name(&comp("dir/")), Some(vec![comp("dir")]));
}

#[test]
fn ingest_entries_skips_unsafe_entry_without_progress() {
    let mut fs = Fs::empty();
    assert!(fs.create_dir_all(&path(&["r"])).is_ok());
    let entries = vec![
        ArchiveEntry {
            rel_path: comp("../escape"),
            is_dir: false,
            data: b"x".to_vec(),
        },
        ArchiveEntry {
            rel_path: comp("ok.txt"),
            is_dir: false,
            data: b"y".to_vec(),
        },
    ];
    let (r, progress) = ingest_entries(&mut fs, &path(&["r"]), &comp("Pack"), &entries);
    assert_eq!(r, Ok(()));
    // Only the safe entry reports progress: the second of two.
    assert_eq!(progress, vec![100]);
    assert!(!fs.exists_at(&path(&["escape"])));
    assert_eq!(
        fs.read_file(&path(&["r", "Pack", "ok.txt"])),
        Some(b"y".to_vec())
    );
}
