//! The collaborator records and the pure decisions over them.

use mod_manager::records::{
    apply_db_defaults, db_summary, default_database, get_db_path, get_game_db_path,
    get_games_path, i64_bytes, next_game_id, plan_migration, remove_game, update_game_fields,
    Game, MigrateStep,
};

fn game(id: i64, name: &str) -> Game {
    Game { id, name: name.to_string(), description: String::new(), preview: None }
}

#[test]
fn next_game_id_starts_at_one_and_tops_the_maximum() {
    assert_eq!(next_game_id(&Vec::new()), 1);
    let games = vec![game(1, "a"), game(5, "b"), game(3, "c")];
    assert_eq!(next_game_id(&games), 6);
}

#[test]
fn update_game_fields_rewrites_the_matching_game() {
    let mut games = vec![game(1, "a"), game(2, "b")];
    let found = update_game_fields(&mut games, 2, "renamed".to_string(), "d".to_string(), None);
    assert!(found);
    assert_eq!(games[1].name, "renamed");
    assert_eq!(games[1].description, "d");
    assert_eq!(games[0].name, "a");
}

#[test]
fn update_game_fields_misses_unknown_id() {
    let mut games = vec![game(1, "a")];
    let found = update_game_fields(&mut games, 9, "x".to_string(), "y".to_string(), None);
    assert!(!found);
    assert_eq!(games[0].name, "a");
}

#[test]
fn remove_game_drops_only_the_matching_game() {
    let mut games = vec![game(1, "a"), game(2, "b"), game(3, "c")];
    remove_game(&mut games, 2);
    assert_eq!(games.len(), 2);
    assert_eq!(games[0].id, 1);
    assert_eq!(games[1].id, 3);
}

#[test]
fn defaults_fill_only_empty_fields() {
    let mut db = default_database();
    db.mod_strategy = String::new();
    db.disabled_folder = String::new();
    apply_db_defaults(&mut db);
    assert_eq!(db.mod_strategy, "generic_rename");
    assert_eq!(db.disabled_folder, "_Disabled");

    let mut db2 = default_database();
    db2.mod_strategy = "wuthering_waves".to_string();
    apply_db_defaults(&mut db2);
    assert_eq!(db2.mod_strategy, "wuthering_waves");
}

#[test]
fn default_database_shape() {
    let db = default_database();
    assert_eq!(db.root_folder, "C:\\Games\\Mods");
    assert_eq!(db.disabled_folder, "_Disabled");
    assert_eq!(db.mod_strategy, "generic_rename");
    assert_eq!(db.categories.len(), 1);
    assert_eq!(db.categories[0].id, 1);
    assert_eq!(db.categories[0].name, "Root");
    assert!(db.mods.is_empty());
    let (cats, mods) = db_summary(&db);
    assert_eq!((cats, mods), (1, 0));
}

#[test]
fn migration_plans_cover_the_requested_steps() {
    assert_eq!(
        plan_migration(true, false, false, false),
        vec![MigrateStep::CopyData]
    );
    assert_eq!(
        plan_migration(true, true, false, false),
        vec![MigrateStep::BackupDestination, MigrateStep::CopyData]
    );
    assert_eq!(
        plan_migration(true, false, true, false),
        vec![MigrateStep::CopyData, MigrateStep::DeleteSource]
    );
    assert_eq!(
        plan_migration(true, true, false, true),
        vec![
            MigrateStep::BackupDestination,
            MigrateStep::CopyData,
            MigrateStep::BackupSource
        ]
    );
    assert_eq!(plan_migration(false, false, false, false), Vec::new());
}

#[test]
fn database_file_paths_are_joined_under_the_data_directory() {
    let data_dir = vec![b"home".to_vec(), b"ModManager".to_vec()];
    let games = get_games_path(&data_dir);
    assert_eq!(games.last().unwrap(), &b"games.json".to_vec());
    assert_eq!(&games[..2], &data_dir[..]);

    let legacy = get_db_path(&data_dir);
    assert_eq!(legacy.last().unwrap(), &b"mod-manager.json".to_vec());

    let db42 = get_game_db_path(&data_dir, 42);
    assert_eq!(db42.last().unwrap(), &b"game-42.json".to_vec());

    let dbneg = get_game_db_path(&data_dir, -7);
    assert_eq!(dbneg.last().unwrap(), &b"game--7.json".to_vec());
}

#[test]
fn decimal_text_of_ids() {
    assert_eq!(i64_bytes(0), b"0".to_vec());
    assert_eq!(i64_bytes(9), b"9".to_vec());
    assert_eq!(i64_bytes(1234567890), b"1234567890".to_vec());
    assert_eq!(i64_bytes(-1), b"-1".to_vec());
    assert_eq!(i64_bytes(i64::MIN), b"-9223372036854775808".to_vec());
}
