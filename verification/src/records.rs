//! The collaborator data model: the records the database layer stores,
//! and the pure decisions made over them. Reading and writing the
//! database file itself is the embedding program's work.

use vstd::prelude::*;

use crate::paths::{path_join, path_view};

verus! {

/// A category of mods; `parent_id` makes categories a forest.
#[derive(Clone, Debug, PartialEq, Eq)]
pub struct Category {
    pub id: i64,
    pub name: String,
    pub parent_id: Option<i64>,
    pub expanded: bool,
}

/// Free-form metadata attached to a tag.
#[derive(Clone, Debug, PartialEq, Eq)]
pub struct TagMetadata {
    pub name: String,
    pub description: String,
    pub preview: Option<String>,
    pub mutually_exclusive: bool,
}

/// One mod as the database records it; the core reads only `name` and
/// `enabled`.
#[derive(Clone, Debug, PartialEq, Eq)]
pub struct Mod {
    pub id: i64,
    pub name: String,
    pub category_id: i64,
    pub enabled: bool,
    pub notes: String,
    pub preview: Option<String>,
    pub tags: Vec<String>,
}

/// One game profile's database.
#[derive(Debug)]
pub struct Database {
    pub root_folder: String,
    pub disabled_folder: String,
    pub mod_strategy: String,
    pub categories: Vec<Category>,
    pub mods: Vec<Mod>,
    pub tags: Vec<String>,
    pub tag_metadata: Vec<TagMetadata>,
}

/// One game profile.
#[derive(Clone, Debug, PartialEq, Eq)]
pub struct Game {
    pub id: i64,
    pub name: String,
    pub description: String,
    pub preview: Option<String>,
}

/// The largest game id in use, or 0 when there is none.
pub open spec fn sp_max_game_id(games: Seq<Game>) -> int
    decreases games.len(),
{
    if games.len() == 0 {
        0
    } else {
        let rest = sp_max_game_id(games.drop_last());
        if games.last().id > rest {
            games.last().id as int
        } else {
            rest
        }
    }
}

/// The id a newly added game receives: one past the largest in use.
#[verifier::loop_isolation(false)]
pub fn next_game_id(games: &Vec<Game>) -> (r: i64)
    requires
        forall|i: int| 0 <= i < games@.len() ==> #[trigger] games@[i].id < i64::MAX,
        sp_max_game_id(games@) < i64::MAX,
    ensures
        r == sp_max_game_id(games@) + 1,
{
    let mut best: i64 = 0;
    let mut i: usize = 0;
    proof {
        assert(games@.take(0) =~= Seq::<Game>::empty());
    }
    while i < games.len()
        invariant
            0 <= i <= games@.len(),
            best == sp_max_game_id(games@.take(i as int)),
            best < i64::MAX,
        decreases games@.len() - i,
    {
        proof {
            assert(games@.take(i + 1).drop_last() =~= games@.take(i as int));
            assert(games@.take(i + 1).last() == games@[i as int]);
            assert(sp_max_game_id(games@) >= sp_max_game_id(games@.take(i + 1))
            ) by {
            lemma_max_game_id_prefix(games@, i + 1);
            }
        }
        if games[i].id > best {
            best = games[i].id;
        }
        proof {
            assert(best == sp_max_game_id(games@.take(i + 1)));
            assert(best <= sp_max_game_id(games@));
        }
        i += 1;
    }
    proof {
        assert(games@.take(games@.len() as int) =~= games@);
    }
    best + 1
}

/// A prefix's largest id never exceeds the whole list's.
pub proof fn lemma_max_game_id_prefix(games: Seq<Game>, k: int)
    requires
        0 <= k <= games.len(),
    ensures
        sp_max_game_id(games.take(k)) <= sp_max_game_id(games),
    decreases games.len(),
{
    if k < games.len() {
        lemma_max_game_id_prefix(games.drop_last(), k);
        assert(games.drop_last().take(k) =~= games.take(k));
    } else {
        assert(games.take(k) =~= games);
    }
}

/// Index of the first game with the given id, or -1.
pub open spec fn sp_find_game(games: Seq<Game>, id: int) -> int
    decreases games.len(),
{
    if games.len() == 0 {
        -1
    } else if games[0].id == id {
        0
    } else {
        let rest = sp_find_game(games.skip(1), id);
        if rest < 0 {
            -1
        } else {
            1 + rest
        }
    }
}

/// Updates the first game with the given id in place; reports whether
/// one was found.
#[verifier::loop_isolation(false)]
pub fn update_game_fields(
    games: &mut Vec<Game>,
    game_id: i64,
    name: String,
    description: String,
    preview: Option<String>,
) -> (found: bool)
    ensures
        found == (sp_find_game(old(games)@, game_id as int) >= 0),
        final(games)@.len() == old(games)@.len(),
        found ==> {
            let k = sp_find_game(old(games)@, game_id as int);
            &&& final(games)@ == old(games)@.update(
                k,
                Game { id: game_id, name, description, preview },
            )
        },
        !found ==> final(games)@ == old(games)@,
{
    let mut idx: Option<usize> = None;
    let mut i: usize = 0;
    while i < games.len()
        invariant
            0 <= i <= games@.len(),
            games@ == old(games)@,
            match idx {
                Some(k) => k < games@.len() && sp_find_game(old(games)@, game_id as int)
                    == k as int,
                None => {
                    &&& forall|j: int| 0 <= j < i ==> games@[j].id != game_id
                    &&& (sp_find_game(old(games)@, game_id as int) < 0 || sp_find_game(
                        old(games)@,
                        game_id as int,
                    ) >= i)
                },
            },
        decreases games@.len() - i,
    {
        if idx.is_none() {
            if games[i].id == game_id {
                proof {
                    lemma_find_game_at(games@, game_id as int, i as int);
                }
                idx = Some(i);
            } else {
                proof {
                    lemma_find_game_skip(old(games)@, game_id as int, i as int);
                }
            }
        }
        i += 1;
    }
    match idx {
        Some(k) => {
            games[k] = Game { id: game_id, name, description, preview };
            true
        },
        None => {
            proof {
                if sp_find_game(old(games)@, game_id as int) >= 0 {
                    lemma_find_game_hits(old(games)@, game_id as int);
                }
            }
            false
        },
    }
}

/// When the first `i` games miss the id and game `i` has it, the first
/// match is at `i`.
pub proof fn lemma_find_game_at(games: Seq<Game>, id: int, i: int)
    requires
        0 <= i < games.len(),
        games[i].id == id,
        forall|j: int| 0 <= j < i ==> games[j].id != id,
    ensures
        sp_find_game(games, id) == i,
    decreases i,
{
    if i > 0 {
        lemma_find_game_at(games.skip(1), id, i - 1);
        assert(forall|j: int| 0 <= j < i - 1 ==> games.skip(1)[j] == games[j + 1]);
        assert(games.skip(1)[i - 1] == games[i]);
    }
}

/// When the first `i + 1` games miss the id, the first match, if any,
/// sits beyond them.
pub proof fn lemma_find_game_skip(games: Seq<Game>, id: int, i: int)
    requires
        0 <= i < games.len(),
        forall|j: int| 0 <= j <= i ==> games[j].id != id,
        sp_find_game(games, id) < 0 || sp_find_game(games, id) >= i,
    ensures
        sp_find_game(games, id) < 0 || sp_find_game(games, id) >= i + 1,
    decreases i,
{
    if sp_find_game(games, id) == i {
        lemma_find_game_hits(games, id);
    }
}

/// The first match, when there is one, carries the id.
pub proof fn lemma_find_game_hits(games: Seq<Game>, id: int)
    requires
        sp_find_game(games, id) >= 0,
    ensures
        sp_find_game(games, id) < games.len(),
        games[sp_find_game(games, id)].id == id,
    decreases games.len(),
{
    if games.len() > 0 && games[0].id != id {
        lemma_find_game_hits(games.skip(1), id);
        assert(games.skip(1)[sp_find_game(games.skip(1), id)] == games[sp_find_game(games, id)]);
    }
}

/// The game list without any game of the given id.
pub open spec fn sp_games_without(games: Seq<Game>, id: int) -> Seq<Game>
    decreases games.len(),
{
    if games.len() == 0 {
        Seq::empty()
    } else {
        let rest = sp_games_without(games.drop_last(), id);
        if games.last().id == id {
            rest
        } else {
            rest.push(games.last())
        }
    }
}

/// Removes every game with the given id from the list.
#[verifier::loop_isolation(false)]
pub fn remove_game(games: &mut Vec<Game>, game_id: i64)
    ensures
        final(games)@ == sp_games_without(old(games)@, game_id as int),
{
    let ghost pre = games@;
    let mut i: usize = 0;
    let ghost j: int = 0;
    proof {
        assert(games@ =~= sp_games_without(pre.take(0), game_id as int) + pre.skip(0));
        assert(i as int == sp_games_without(pre.take(0), game_id as int).len());
    }
    while i < games.len()
        invariant
            0 <= j <= pre.len(),
            i as int == sp_games_without(pre.take(j), game_id as int).len(),
            games@ == sp_games_without(pre.take(j), game_id as int) + pre.skip(j),
        decreases games@.len() - i,
    {
        proof {
            assert(pre.skip(j).len() > 0);
            assert(games@[i as int] == pre.skip(j)[0]);
            assert(pre.skip(j)[0] == pre[j]);
            assert(pre.take(j + 1).drop_last() =~= pre.take(j));
            assert(pre.take(j + 1).last() == pre[j]);
        }
        if games[i].id == game_id {
            games.remove(i);
            proof {
                assert(games@ =~= sp_games_without(pre.take(j + 1), game_id as int) + pre.skip(
                    j + 1,
                ));
            }
        } else {
            proof {
                assert(games@ =~= sp_games_without(pre.take(j + 1), game_id as int) + pre.skip(
                    j + 1,
                ));
            }
            i += 1;
        }
        proof {
            j = j + 1;
        }
    }
    proof {
        assert(pre.skip(j).len() == 0);
        assert(j == pre.len());
        assert(pre.take(pre.len() as int) =~= pre);
        assert(games@ =~= sp_games_without(pre, game_id as int));
    }
}

/// Fills the two strategy fields that older databases may lack: an
/// empty strategy identifier and an empty holding-folder name receive
/// their defaults.
pub fn apply_db_defaults(db: &mut Database)
    ensures
        final(db).mod_strategy@ == if old(db).mod_strategy@.len() == 0 {
            "generic_rename"@
        } else {
            old(db).mod_strategy@
        },
        final(db).disabled_folder@ == if old(db).disabled_folder@.len() == 0 {
            "_Disabled"@
        } else {
            old(db).disabled_folder@
        },
        final(db).root_folder == old(db).root_folder,
        final(db).categories == old(db).categories,
        final(db).mods == old(db).mods,
        final(db).tags == old(db).tags,
        final(db).tag_metadata == old(db).tag_metadata,
{
    if db.mod_strategy.as_str().is_empty() {
        db.mod_strategy = "generic_rename".to_owned();
    }
    if db.disabled_folder.as_str().is_empty() {
        db.disabled_folder = "_Disabled".to_owned();
    }
}

/// A fresh database for a new game profile: the defaults and a single
/// root category.
pub fn default_database() -> (db: Database)
    ensures
        db.root_folder@ == "C:\\Games\\Mods"@,
        db.disabled_folder@ == "_Disabled"@,
        db.mod_strategy@ == "generic_rename"@,
        db.categories@.len() == 1,
        db.categories@[0].id == 1,
        db.categories@[0].name@ == "Root"@,
        db.categories@[0].parent_id is None,
        db.categories@[0].expanded == true,
        db.mods@.len() == 0,
        db.tags@.len() == 0,
        db.tag_metadata@.len() == 0,
{
    Database {
        root_folder: "C:\\Games\\Mods".to_owned(),
        disabled_folder: "_Disabled".to_owned(),
        mod_strategy: "generic_rename".to_owned(),
        categories: vec![
            Category { id: 1, name: "Root".to_owned(), parent_id: None, expanded: true },
        ],
        mods: Vec::new(),
        tags: Vec::new(),
        tag_metadata: Vec::new(),
    }
}

/// The counts a database summary reports.
pub fn db_summary(db: &Database) -> (r: (usize, usize))
    ensures
        r.0 == db.categories@.len(),
        r.1 == db.mods@.len(),
{
    (db.categories.len(), db.mods.len())
}

/// One step of a database migration between storage locations.
#[derive(Clone, Copy, Debug, PartialEq, Eq, Structural)]
pub enum MigrateStep {
    /// Copy the occupied destination aside before overwriting it.
    BackupDestination,
    /// Copy the data from the source to the destination.
    CopyData,
    /// Copy the source aside as a backup.
    BackupSource,
    /// Remove the source after the move.
    DeleteSource,
}

/// The steps a migration performs, in order, given what exists and what
/// was asked: an occupied destination is first put aside unless the old
/// data is to be deleted; data is copied only when the source exists,
/// followed by an optional source backup and the optional delete.
pub open spec fn sp_migration_plan(
    from_exists: bool,
    to_exists: bool,
    delete_old: bool,
    create_backup: bool,
) -> Seq<MigrateStep> {
    let pre = if to_exists && !delete_old {
        seq![MigrateStep::BackupDestination]
    } else {
        Seq::empty()
    };
    if from_exists {
        let copy = pre.push(MigrateStep::CopyData);
        let backed = if create_backup && !delete_old {
            copy.push(MigrateStep::BackupSource)
        } else {
            copy
        };
        if delete_old {
            backed.push(MigrateStep::DeleteSource)
        } else {
            backed
        }
    } else {
        pre
    }
}

/// Plans a migration between storage locations.
pub fn plan_migration(
    from_exists: bool,
    to_exists: bool,
    delete_old: bool,
    create_backup: bool,
) -> (r: Vec<MigrateStep>)
    ensures
        r@ == sp_migration_plan(from_exists, to_exists, delete_old, create_backup),
{
    let mut r: Vec<MigrateStep> = Vec::new();
    if to_exists && !delete_old {
        r.push(MigrateStep::BackupDestination);
    }
    if from_exists {
        r.push(MigrateStep::CopyData);
        if create_backup && !delete_old {
            r.push(MigrateStep::BackupSource);
        }
        if delete_old {
            r.push(MigrateStep::DeleteSource);
        }
    }
    proof {
        assert(r@ =~= sp_migration_plan(from_exists, to_exists, delete_old, create_backup));
    }
    r
}

/// The decimal digits of a nonnegative number.
pub open spec fn sp_dec_digits(n: int) -> Seq<u8>
    decreases n,
{
    if n < 10 {
        seq![(48 + if n >= 0 {
            n
        } else {
            0
        }) as u8]
    } else {
        sp_dec_digits(n / 10).push((48 + n % 10) as u8)
    }
}

/// The decimal text of a signed id.
pub open spec fn sp_i64_bytes(v: int) -> Seq<u8> {
    if v >= 0 {
        sp_dec_digits(v)
    } else {
        seq![45u8] + sp_dec_digits(-v)
    }
}

/// Appends the decimal digits of `n`.
fn push_dec_digits(n: u64, out: &mut Vec<u8>)
    ensures
        final(out)@ == old(out)@ + sp_dec_digits(n as int),
    decreases n,
{
    if n < 10 {
        out.push(48 + n as u8);
        proof {
            assert(out@ =~= old(out)@ + sp_dec_digits(n as int));
        }
    } else {
        push_dec_digits(n / 10, out);
        out.push(48 + (n % 10) as u8);
        proof {
            assert(out@ =~= old(out)@ + sp_dec_digits(n as int));
        }
    }
}

/// The decimal text of a signed id as bytes.
pub fn i64_bytes(v: i64) -> (r: Vec<u8>)
    ensures
        r@ == sp_i64_bytes(v as int),
{
    let mut out: Vec<u8> = Vec::new();
    if v >= 0 {
        push_dec_digits(v as u64, &mut out);
        proof {
            assert(Seq::<u8>::empty() + sp_dec_digits(v as int) =~= sp_dec_digits(v as int));
        }
    } else {
        out.push(45);
        let mag = (-(v as i128)) as u64;
        push_dec_digits(mag, &mut out);
        proof {
            assert(seq![45u8] + sp_dec_digits(mag as int) =~= out@);
        }
    }
    out
}

/// The games index's file name.
pub open spec fn sp_games_file() -> Seq<u8> {
    seq![103u8, 97, 109, 101, 115, 46, 106, 115, 111, 110]
}

/// The legacy single database's file name.
pub open spec fn sp_legacy_db_file() -> Seq<u8> {
    seq![109u8, 111, 100, 45, 109, 97, 110, 97, 103, 101, 114, 46, 106, 115, 111, 110]
}

/// The per-game database's file name: `game-`, the id, `.json`.
pub open spec fn sp_game_db_file(game_id: int) -> Seq<u8> {
    seq![103u8, 97, 109, 101, 45] + sp_i64_bytes(game_id) + seq![46u8, 106, 115, 111, 110]
}

/// The path of the games index under the data directory.
pub fn get_games_path(data_dir: &Vec<Vec<u8>>) -> (r: Vec<Vec<u8>>)
    ensures
        path_view(r) == path_view(*data_dir).push(sp_games_file()),
{
    let name: Vec<u8> = vec![103u8, 97, 109, 101, 115, 46, 106, 115, 111, 110];
    proof {
        assert(name@ =~= sp_games_file());
    }
    path_join(data_dir, &name)
}

/// The path of the legacy single database under the data directory.
pub fn get_db_path(data_dir: &Vec<Vec<u8>>) -> (r: Vec<Vec<u8>>)
    ensures
        path_view(r) == path_view(*data_dir).push(sp_legacy_db_file()),
{
    let name: Vec<u8> = vec![109u8, 111, 100, 45, 109, 97, 110, 97, 103, 101, 114, 46, 106, 115,
        111, 110];
    proof {
        assert(name@ =~= sp_legacy_db_file());
    }
    path_join(data_dir, &name)
}

/// The path of one game's database under the data directory.
pub fn get_game_db_path(data_dir: &Vec<Vec<u8>>, game_id: i64) -> (r: Vec<Vec<u8>>)
    ensures
        path_view(r) == path_view(*data_dir).push(sp_game_db_file(game_id as int)),
{
    let mut name: Vec<u8> = vec![103u8, 97, 109, 101, 45];
    let digits = i64_bytes(game_id);
    let mut k: usize = 0;
    let ghost head = name@;
    while k < digits.len()
        invariant
            0 <= k <= digits@.len(),
            name@ == head + digits@.take(k as int),
        decreases digits@.len() - k,
    {
        name.push(digits[k]);
        proof {
            assert(name@ =~= head + digits@.take(k + 1));
        }
        k += 1;
    }
    name.push(46);
    name.push(106);
    name.push(115);
    name.push(111);
    name.push(110);
    proof {
        assert(digits@.take(digits@.len() as int) =~= digits@);
        assert(name@ =~= sp_game_db_file(game_id as int));
    }
    path_join(data_dir, &name)
}

} // verus!
