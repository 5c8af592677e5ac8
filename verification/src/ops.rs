//! Single-mod operations on the managed tree: deleting, renaming,
//! copying and moving whole mod folders.

use vstd::prelude::*;

use crate::fsmodel::{
    ActionV, Fs, FsEntry, NodeV, seq_entry_path, seq_wf, sp_can_make_dirs, sp_remove_subtree,
    sp_rename, sp_rename_ok, sp_under, sp_with_dirs, sp_write_ok,
};
use crate::names::{valid_name, valid_name_spec};
use crate::paths::{clone_bytes, clone_path, path_join, path_starts_with, path_view,
    sp_starts_with};
use crate::strategy::{ModError, as_result};

verus! {

/// The error of a mod deletion, if any: the name must be a valid leaf
/// name and the mod folder must exist.
pub open spec fn sp_delete_err(
    m: Map<Seq<Seq<u8>>, NodeV>,
    root: Seq<Seq<u8>>,
    name: Seq<u8>,
) -> Option<ModError> {
    if !valid_name_spec(name) {
        Option::Some(ModError::InvalidName)
    } else if !m.dom().contains(root.push(name)) {
        Option::Some(ModError::NotFound)
    } else {
        Option::None
    }
}

/// The tree after a mod deletion: the folder and everything below it
/// are gone.
pub open spec fn sp_delete_map(
    m: Map<Seq<Seq<u8>>, NodeV>,
    root: Seq<Seq<u8>>,
    name: Seq<u8>,
) -> Map<Seq<Seq<u8>>, NodeV> {
    if sp_delete_err(m, root, name) is None {
        sp_remove_subtree(m, root.push(name))
    } else {
        m
    }
}

/// Deletes the mod folder `name` under `root` with everything in it;
/// a success records exactly one recursive removal.
pub fn delete_mod(fs: &mut Fs, root: &Vec<Vec<u8>>, name: &Vec<u8>) -> (r: Result<(), ModError>)
    requires
        old(fs).wf(),
    ensures
        final(fs).wf(),
        r == as_result(sp_delete_err(old(fs)@, path_view(*root), name@)),
        final(fs)@ == sp_delete_map(old(fs)@, path_view(*root), name@),
        final(fs).log_view() == old(fs).log_view() + (
        if sp_delete_err(old(fs)@, path_view(*root), name@) is None {
            seq![ActionV::RemoveAll { path: path_view(*root).push(name@) }]
        } else {
            Seq::<ActionV>::empty()
        }),
        r is Err ==> final(fs)@ == old(fs)@ && final(fs).log_view() == old(fs).log_view(),
{
    proof {
        assert(old(fs).log_view() + Seq::<ActionV>::empty() =~= old(fs).log_view());
    }
    if !valid_name(name) {
        return Err(ModError::InvalidName);
    }
    let mod_path = path_join(root, name);
    match fs.remove_all(&mod_path) {
        Ok(_) => {
            proof {
                assert(fs.log_view() =~= old(fs).log_view() + seq![
                    ActionV::RemoveAll { path: path_view(*root).push(name@) },
                ]);
            }
            Ok(())
        },
        Err(_) => Err(ModError::NotFound),
    }
}

/// The error of a mod rename, if any: both names must be valid leaf
/// names, the source folder must exist, and the new name must be free.
pub open spec fn sp_rename_mod_err(
    m: Map<Seq<Seq<u8>>, NodeV>,
    root: Seq<Seq<u8>>,
    old_name: Seq<u8>,
    new_name: Seq<u8>,
) -> Option<ModError> {
    if !valid_name_spec(old_name) || !valid_name_spec(new_name) {
        Option::Some(ModError::InvalidName)
    } else if !m.dom().contains(root.push(old_name)) {
        Option::Some(ModError::NotFound)
    } else if sp_under(m, root.push(new_name)) {
        Option::Some(ModError::AlreadyExists)
    } else if !sp_rename_ok(m, root.push(old_name), root.push(new_name)) {
        Option::Some(ModError::IoFailure)
    } else {
        Option::None
    }
}

/// The tree after a mod rename: the whole folder sits under its new
/// leaf name.
pub open spec fn sp_rename_mod_map(
    m: Map<Seq<Seq<u8>>, NodeV>,
    root: Seq<Seq<u8>>,
    old_name: Seq<u8>,
    new_name: Seq<u8>,
) -> Map<Seq<Seq<u8>>, NodeV> {
    if sp_rename_mod_err(m, root, old_name, new_name) is None {
        sp_rename(m, root.push(old_name), root.push(new_name))
    } else {
        m
    }
}

/// Renames the mod folder `old_name` under `root` to `new_name`; an
/// occupied new name is refused so that two mods are never merged, and
/// a success records exactly one atomic rename.
pub fn rename_mod(
    fs: &mut Fs,
    root: &Vec<Vec<u8>>,
    old_name: &Vec<u8>,
    new_name: &Vec<u8>,
) -> (r: Result<(), ModError>)
    requires
        old(fs).wf(),
    ensures
        final(fs).wf(),
        r == as_result(sp_rename_mod_err(old(fs)@, path_view(*root), old_name@, new_name@)),
        final(fs)@ == sp_rename_mod_map(old(fs)@, path_view(*root), old_name@, new_name@),
        final(fs).log_view() == old(fs).log_view() + (
        if sp_rename_mod_err(old(fs)@, path_view(*root), old_name@, new_name@) is None {
            seq![
                ActionV::Rename {
                    from: path_view(*root).push(old_name@),
                    to: path_view(*root).push(new_name@),
                },
            ]
        } else {
            Seq::<ActionV>::empty()
        }),
        r is Err ==> final(fs)@ == old(fs)@ && final(fs).log_view() == old(fs).log_view(),
{
    proof {
        assert(old(fs).log_view() + Seq::<ActionV>::empty() =~= old(fs).log_view());
    }
    if !valid_name(old_name) || !valid_name(new_name) {
        return Err(ModError::InvalidName);
    }
    let old_path = path_join(root, old_name);
    let new_path = path_join(root, new_name);
    if !fs.exists_at(&old_path) {
        return Err(ModError::NotFound);
    }
    if fs.exists_under(&new_path) {
        return Err(ModError::AlreadyExists);
    }
    match fs.rename(&old_path, &new_path) {
        Ok(_) => {
            proof {
                assert(fs.log_view() =~= old(fs).log_view() + seq![
                    ActionV::Rename {
                        from: path_view(*root).push(old_name@),
                        to: path_view(*root).push(new_name@),
                    },
                ]);
            }
            Ok(())
        },
        Err(_) => Err(ModError::IoFailure),
    }
}

/// The error of a whole-folder move, if any: the destination leaf name
/// must be valid, the source must exist, and the destination (made
/// under `dest_root`, which is created on demand) must be free.
pub open spec fn sp_move_err(
    m: Map<Seq<Seq<u8>>, NodeV>,
    source: Seq<Seq<u8>>,
    dest_root: Seq<Seq<u8>>,
    dest_name: Seq<u8>,
) -> Option<ModError> {
    let dest = dest_root.push(dest_name);
    if !valid_name_spec(dest_name) {
        Option::Some(ModError::InvalidName)
    } else if !m.dom().contains(source) {
        Option::Some(ModError::NotFound)
    } else if sp_under(m, dest) {
        Option::Some(ModError::AlreadyExists)
    } else if !sp_can_make_dirs(m, dest_root) {
        Option::Some(ModError::IoFailure)
    } else if !sp_rename_ok(sp_with_dirs(m, dest_root), source, dest) {
        Option::Some(ModError::IoFailure)
    } else {
        Option::None
    }
}

/// The tree after a whole-folder move. The destination's parent chain
/// is made before the move, so a failure after that point leaves it
/// created.
pub open spec fn sp_move_map(
    m: Map<Seq<Seq<u8>>, NodeV>,
    source: Seq<Seq<u8>>,
    dest_root: Seq<Seq<u8>>,
    dest_name: Seq<u8>,
) -> Map<Seq<Seq<u8>>, NodeV> {
    let dest = dest_root.push(dest_name);
    if !valid_name_spec(dest_name) {
        m
    } else if !m.dom().contains(source) {
        m
    } else if sp_under(m, dest) {
        m
    } else if !sp_can_make_dirs(m, dest_root) {
        m
    } else if !sp_rename_ok(sp_with_dirs(m, dest_root), source, dest) {
        sp_with_dirs(m, dest_root)
    } else {
        sp_rename(sp_with_dirs(m, dest_root), source, dest)
    }
}

/// The disk actions a whole-folder move records, in replay order: at
/// most the destination root's creation and one atomic rename.
pub open spec fn sp_move_log(
    m: Map<Seq<Seq<u8>>, NodeV>,
    source: Seq<Seq<u8>>,
    dest_root: Seq<Seq<u8>>,
    dest_name: Seq<u8>,
) -> Seq<ActionV> {
    let dest = dest_root.push(dest_name);
    if !valid_name_spec(dest_name) {
        Seq::empty()
    } else if !m.dom().contains(source) {
        Seq::empty()
    } else if sp_under(m, dest) {
        Seq::empty()
    } else if !sp_can_make_dirs(m, dest_root) {
        Seq::empty()
    } else {
        let made = seq![ActionV::CreateDirAll { path: dest_root }];
        if !sp_rename_ok(sp_with_dirs(m, dest_root), source, dest) {
            made
        } else {
            made.push(ActionV::Rename { from: source, to: dest })
        }
    }
}

/// Moves the folder at `source` to `dest_root/dest_name` by a single
/// rename; the destination must not already exist.
pub fn move_mod(
    fs: &mut Fs,
    source: &Vec<Vec<u8>>,
    dest_root: &Vec<Vec<u8>>,
    dest_name: &Vec<u8>,
) -> (r: Result<(), ModError>)
    requires
        old(fs).wf(),
    ensures
        final(fs).wf(),
        r == as_result(sp_move_err(old(fs)@, path_view(*source), path_view(*dest_root), dest_name@)),
        final(fs)@ == sp_move_map(old(fs)@, path_view(*source), path_view(*dest_root), dest_name@),
        final(fs).log_view() == old(fs).log_view() + sp_move_log(
            old(fs)@,
            path_view(*source),
            path_view(*dest_root),
            dest_name@,
        ),
{
    proof {
        assert(old(fs).log_view() + Seq::<ActionV>::empty() =~= old(fs).log_view());
    }
    if !valid_name(dest_name) {
        return Err(ModError::InvalidName);
    }
    let dest = path_join(dest_root, dest_name);
    if !fs.exists_at(source) {
        return Err(ModError::NotFound);
    }
    if fs.exists_under(&dest) {
        return Err(ModError::AlreadyExists);
    }
    match fs.create_dir_all(dest_root) {
        Err(_) => {
            return Err(ModError::IoFailure);
        },
        Ok(_) => {},
    }
    proof {
        assert(fs.log_view() =~= old(fs).log_view() + seq![
            ActionV::CreateDirAll { path: path_view(*dest_root) },
        ]);
    }
    match fs.rename(source, &dest) {
        Ok(_) => {
            proof {
                assert(fs.log_view() =~= old(fs).log_view() + seq![
                    ActionV::CreateDirAll { path: path_view(*dest_root) },
                ].push(ActionV::Rename { from: path_view(*source), to: path_view(dest) }));
            }
            Ok(())
        },
        Err(_) => Err(ModError::IoFailure),
    }
}


/// The path-and-node views of the entries strictly below `src`, among
/// the first `bound` entries of the list, in order.
pub open spec fn sp_sub_upto(es: Seq<FsEntry>, bound: int, src: Seq<Seq<u8>>) -> Seq<
    (Seq<Seq<u8>>, NodeV),
>
    decreases bound,
{
    if bound <= 0 {
        Seq::empty()
    } else {
        let rest = sp_sub_upto(es, bound - 1, src);
        let p = seq_entry_path(es, bound - 1);
        if sp_starts_with(p, src) && p.len() > src.len() {
            rest.push((p, es[bound - 1].node@))
        } else {
            rest
        }
    }
}

/// One copied item applied below `dest`: a directory is made with its
/// missing parents, a file's missing parents are made and its bytes
/// written.
pub open spec fn sp_copy_step(
    m: Map<Seq<Seq<u8>>, NodeV>,
    p: Seq<Seq<u8>>,
    node: NodeV,
    src: Seq<Seq<u8>>,
    dest: Seq<Seq<u8>>,
) -> (Map<Seq<Seq<u8>>, NodeV>, Option<ModError>) {
    let target = dest + p.skip(src.len() as int);
    match node {
        NodeV::Dir => {
            if sp_can_make_dirs(m, target) {
                (sp_with_dirs(m, target), Option::None)
            } else {
                (m, Option::Some(ModError::IoFailure))
            }
        },
        NodeV::File { data } => {
            let parent = target.drop_last();
            if !sp_can_make_dirs(m, parent) {
                (m, Option::Some(ModError::IoFailure))
            } else {
                let m1 = sp_with_dirs(m, parent);
                if sp_write_ok(m1, target) {
                    (m1.insert(target, NodeV::File { data }), Option::None)
                } else {
                    (m1, Option::Some(ModError::IoFailure))
                }
            }
        },
    }
}

/// The first `k` copied items applied in order, stopping at the first
/// failure.
pub open spec fn sp_copy_upto(
    m1: Map<Seq<Seq<u8>>, NodeV>,
    items: Seq<(Seq<Seq<u8>>, NodeV)>,
    k: int,
    src: Seq<Seq<u8>>,
    dest: Seq<Seq<u8>>,
) -> (Map<Seq<Seq<u8>>, NodeV>, Option<ModError>)
    decreases k,
{
    if k <= 0 {
        (m1, Option::None)
    } else {
        let prev = sp_copy_upto(m1, items, k - 1, src, dest);
        if prev.1 is Some {
            prev
        } else {
            sp_copy_step(prev.0, items[k - 1].0, items[k - 1].1, src, dest)
        }
    }
}

/// A failure stops the copy: later items change nothing.
pub proof fn lemma_copy_stuck(
    m1: Map<Seq<Seq<u8>>, NodeV>,
    items: Seq<(Seq<Seq<u8>>, NodeV)>,
    k: int,
    k2: int,
    src: Seq<Seq<u8>>,
    dest: Seq<Seq<u8>>,
)
    requires
        0 <= k <= k2,
        sp_copy_upto(m1, items, k, src, dest).1 is Some,
    ensures
        sp_copy_upto(m1, items, k2, src, dest) == sp_copy_upto(m1, items, k, src, dest),
    decreases k2 - k,
{
    if k2 > k {
        lemma_copy_stuck(m1, items, k, k2 - 1, src, dest);
    }
}

/// The disk actions one copied item records: a directory creation for
/// a directory, the parent creation followed by the write for a file;
/// a failed action is not recorded.
pub open spec fn sp_copy_step_log(
    m: Map<Seq<Seq<u8>>, NodeV>,
    p: Seq<Seq<u8>>,
    node: NodeV,
    src: Seq<Seq<u8>>,
    dest: Seq<Seq<u8>>,
) -> Seq<ActionV> {
    let target = dest + p.skip(src.len() as int);
    match node {
        NodeV::Dir => {
            if sp_can_make_dirs(m, target) {
                seq![ActionV::CreateDirAll { path: target }]
            } else {
                Seq::empty()
            }
        },
        NodeV::File { data } => {
            let parent = target.drop_last();
            if !sp_can_make_dirs(m, parent) {
                Seq::empty()
            } else {
                let made = seq![ActionV::CreateDirAll { path: parent }];
                if sp_write_ok(sp_with_dirs(m, parent), target) {
                    made.push(ActionV::WriteFile { path: target, data })
                } else {
                    made
                }
            }
        },
    }
}

/// The disk actions the first `k` copied items record.
pub open spec fn sp_copy_upto_log(
    m1: Map<Seq<Seq<u8>>, NodeV>,
    items: Seq<(Seq<Seq<u8>>, NodeV)>,
    k: int,
    src: Seq<Seq<u8>>,
    dest: Seq<Seq<u8>>,
) -> Seq<ActionV>
    decreases k,
{
    if k <= 0 {
        Seq::empty()
    } else {
        let prev = sp_copy_upto(m1, items, k - 1, src, dest);
        let prevlog = sp_copy_upto_log(m1, items, k - 1, src, dest);
        if prev.1 is Some {
            prevlog
        } else {
            prevlog + sp_copy_step_log(prev.0, items[k - 1].0, items[k - 1].1, src, dest)
        }
    }
}

/// A failure stops the copy: later items record nothing.
pub proof fn lemma_copy_log_stuck(
    m1: Map<Seq<Seq<u8>>, NodeV>,
    items: Seq<(Seq<Seq<u8>>, NodeV)>,
    k: int,
    k2: int,
    src: Seq<Seq<u8>>,
    dest: Seq<Seq<u8>>,
)
    requires
        0 <= k <= k2,
        sp_copy_upto(m1, items, k, src, dest).1 is Some,
    ensures
        sp_copy_upto_log(m1, items, k2, src, dest) == sp_copy_upto_log(m1, items, k, src, dest),
    decreases k2 - k,
{
    if k2 > k {
        lemma_copy_log_stuck(m1, items, k, k2 - 1, src, dest);
        lemma_copy_stuck(m1, items, k, k2 - 1, src, dest);
    }
}

/// The disk actions a whole copy records, in replay order: the
/// destination folder's creation, then each item's actions.
pub open spec fn sp_copy_log(
    m: Map<Seq<Seq<u8>>, NodeV>,
    es: Seq<FsEntry>,
    source: Seq<Seq<u8>>,
    dest_root: Seq<Seq<u8>>,
    dest_name: Seq<u8>,
) -> Seq<ActionV> {
    let dest = dest_root.push(dest_name);
    if !valid_name_spec(dest_name) {
        Seq::empty()
    } else if !(m.dom().contains(source) && m[source] is Dir) {
        Seq::empty()
    } else if sp_under(m, dest) {
        Seq::empty()
    } else if !sp_can_make_dirs(m, dest) {
        Seq::empty()
    } else {
        seq![ActionV::CreateDirAll { path: dest }] + sp_copy_upto_log(
            sp_with_dirs(m, dest),
            sp_sub_upto(es, es.len() as int, source),
            sp_sub_upto(es, es.len() as int, source).len() as int,
            source,
            dest,
        )
    }
}

/// The whole copy: the destination leaf name must be valid, the source
/// must be an existing directory, and the destination free; the
/// destination folder is created first, then the source's entries are
/// duplicated below it in entry order.
pub open spec fn sp_copy_res(
    m: Map<Seq<Seq<u8>>, NodeV>,
    es: Seq<FsEntry>,
    source: Seq<Seq<u8>>,
    dest_root: Seq<Seq<u8>>,
    dest_name: Seq<u8>,
) -> (Map<Seq<Seq<u8>>, NodeV>, Option<ModError>) {
    let dest = dest_root.push(dest_name);
    if !valid_name_spec(dest_name) {
        (m, Option::Some(ModError::InvalidName))
    } else if !(m.dom().contains(source) && m[source] is Dir) {
        (m, Option::Some(ModError::NotFound))
    } else if sp_under(m, dest) {
        (m, Option::Some(ModError::AlreadyExists))
    } else if !sp_can_make_dirs(m, dest) {
        (m, Option::Some(ModError::IoFailure))
    } else {
        sp_copy_upto(
            sp_with_dirs(m, dest),
            sp_sub_upto(es, es.len() as int, source),
            sp_sub_upto(es, es.len() as int, source).len() as int,
            source,
            dest,
        )
    }
}

/// Recursively duplicates the folder at `source` into the fresh folder
/// `dest_root/dest_name`; an occupied destination is refused and left
/// untouched, and a failure partway leaves the part already copied.
#[verifier::loop_isolation(false)]
pub fn copy_mod(
    fs: &mut Fs,
    source: &Vec<Vec<u8>>,
    dest_root: &Vec<Vec<u8>>,
    dest_name: &Vec<u8>,
) -> (r: Result<(), ModError>)
    requires
        old(fs).wf(),
    ensures
        final(fs).wf(),
        final(fs)@ == sp_copy_res(
            old(fs)@,
            old(fs).entries@,
            path_view(*source),
            path_view(*dest_root),
            dest_name@,
        ).0,
        r == as_result(
            sp_copy_res(
                old(fs)@,
                old(fs).entries@,
                path_view(*source),
                path_view(*dest_root),
                dest_name@,
            ).1,
        ),
        final(fs).log_view() == old(fs).log_view() + sp_copy_log(
            old(fs)@,
            old(fs).entries@,
            path_view(*source),
            path_view(*dest_root),
            dest_name@,
        ),
        old(fs).log_view().is_prefix_of(final(fs).log_view()),
{
    proof {
        assert(old(fs).log_view() + Seq::<ActionV>::empty() =~= old(fs).log_view());
        assert(old(fs).log_view().is_prefix_of(old(fs).log_view()));
    }
    if !valid_name(dest_name) {
        return Err(ModError::InvalidName);
    }
    if !fs.is_dir_at(source) {
        return Err(ModError::NotFound);
    }
    let dest = path_join(dest_root, dest_name);
    if fs.exists_under(&dest) {
        return Err(ModError::AlreadyExists);
    }
    let ghost pre_entries = fs.entries@;
    let ghost srcv = path_view(*source);
    // Collect the subtree before any mutation.
    let mut items: Vec<FsEntry> = Vec::new();
    let mut i: usize = 0;
    proof {
        assert(item_views(items@) =~= sp_sub_upto(pre_entries, 0, srcv));
    }
    while i < fs.entries.len()
        invariant
            0 <= i <= fs.entries@.len(),
            fs == old(fs),
            item_views(items@) == sp_sub_upto(pre_entries, i as int, srcv),
        decreases fs.entries@.len() - i,
    {
        let keep = path_starts_with(&fs.entries[i].path, source) && fs.entries[i].path.len()
            > source.len();
        if keep {
            let ghost prev = item_views(items@);
            items.push(
                FsEntry {
                    path: crate::paths::clone_path(&fs.entries[i].path),
                    node: crate::fsmodel::clone_node(&fs.entries[i].node),
                },
            );
            proof {
                assert(item_views(items@) =~= prev.push(
                    (seq_entry_path(pre_entries, i as int), pre_entries[i as int].node@),
                ));
            }
        }
        i += 1;
    }
    match fs.create_dir_all(&dest) {
        Err(_) => {
            return Err(ModError::IoFailure);
        },
        Ok(_) => {},
    }
    let ghost m1 = fs@;
    let ghost dv = path_view(dest);
    let ghost itv = item_views(items@);
    let ghost log1 = fs.log_view();
    proof {
        assert(log1 =~= old(fs).log_view() + seq![ActionV::CreateDirAll { path: dv }]);
        assert(fs.log_view() =~= log1 + sp_copy_upto_log(m1, itv, 0, srcv, dv));
    }
    let total = items.len();
    let mut k: usize = 0;
    while k < total
        invariant
            0 <= k <= total,
            total == itv.len(),
            fs.wf(),
            sp_copy_upto(m1, itv, k as int, srcv, dv).0 == fs@,
            sp_copy_upto(m1, itv, k as int, srcv, dv).1 is None,
            fs.log_view() == log1 + sp_copy_upto_log(m1, itv, k as int, srcv, dv),
        decreases total - k,
    {
        let ghost loop_log = fs.log_view();
        proof {
            assert(itv[k as int] == (path_view(items@[k as int].path), items@[k as int].node@));
            lemma_sub_upto_under(pre_entries, pre_entries.len() as int, srcv, k as int);
        }
        let suffix = crate::paths::path_skip(&items[k].path, source.len());
        let target = crate::paths::path_concat(&dest, &suffix);
        let is_dir = match &items[k].node {
            crate::fsmodel::FsNode::Dir => true,
            crate::fsmodel::FsNode::File { .. } => false,
        };
        if is_dir {
            match fs.create_dir_all(&target) {
                Err(_) => {
                    proof {
                        lemma_copy_stuck(m1, itv, k + 1, total as int, srcv, dv);
                        lemma_copy_log_stuck(m1, itv, k + 1, total as int, srcv, dv);
                        assert(fs.log_view() =~= log1 + sp_copy_upto_log(
                            m1,
                            itv,
                            k + 1,
                            srcv,
                            dv,
                        ));
                    }
                    return Err(ModError::IoFailure);
                },
                Ok(_) => {
                    proof {
                        assert(fs.log_view() =~= log1 + sp_copy_upto_log(
                            m1,
                            itv,
                            k + 1,
                            srcv,
                            dv,
                        ));
                    }
                },
            }
        } else {
            proof {
                assert(path_view(target).len() > dv.len());
            }
            let parent = crate::paths::path_prefix(&target, target.len() - 1);
            proof {
                assert(path_view(parent) =~= path_view(target).drop_last());
            }
            match fs.create_dir_all(&parent) {
                Err(_) => {
                    proof {
                        lemma_copy_stuck(m1, itv, k + 1, total as int, srcv, dv);
                        lemma_copy_log_stuck(m1, itv, k + 1, total as int, srcv, dv);
                        assert(fs.log_view() =~= log1 + sp_copy_upto_log(
                            m1,
                            itv,
                            k + 1,
                            srcv,
                            dv,
                        ));
                    }
                    return Err(ModError::IoFailure);
                },
                Ok(_) => {},
            }
            let ghost mid_log = fs.log_view();
            proof {
                assert(mid_log =~= loop_log + seq![
                    ActionV::CreateDirAll { path: path_view(parent) },
                ]);
            }
            let data = match &items[k].node {
                crate::fsmodel::FsNode::File { data } => crate::paths::clone_bytes(data),
                crate::fsmodel::FsNode::Dir => Vec::new(),
            };
            match fs.write_file(&target, data) {
                Err(_) => {
                    proof {
                        lemma_copy_stuck(m1, itv, k + 1, total as int, srcv, dv);
                        lemma_copy_log_stuck(m1, itv, k + 1, total as int, srcv, dv);
                        assert(fs.log_view() =~= log1 + sp_copy_upto_log(
                            m1,
                            itv,
                            k + 1,
                            srcv,
                            dv,
                        ));
                    }
                    return Err(ModError::IoFailure);
                },
                Ok(_) => {
                    proof {
                        assert(fs.log_view() =~= mid_log.push(
                            ActionV::WriteFile {
                                path: path_view(target),
                                data: itv[k as int].1->File_data,
                            },
                        ));
                        assert(fs.log_view() =~= log1 + sp_copy_upto_log(
                            m1,
                            itv,
                            k + 1,
                            srcv,
                            dv,
                        ));
                    }
                },
            }
        }
        k += 1;
    }
    Ok(())
}

/// The path-and-node views of a collected entry list.
pub open spec fn item_views(items: Seq<FsEntry>) -> Seq<(Seq<Seq<u8>>, NodeV)> {
    Seq::new(items.len(), |i: int| (seq_entry_path(items, i), items[i].node@))
}

/// The collected item came from one of the first `bound` entries.
pub open spec fn sp_item_from(es: Seq<FsEntry>, bound: int, it: (Seq<Seq<u8>>, NodeV)) -> bool {
    exists|j: int|
        0 <= j < bound && #[trigger] seq_entry_path(es, j) == it.0 && es[j].node@ == it.1
}

/// Each collected item comes from one of the first `bound` entries, and
/// the collected paths are pairwise distinct.
pub proof fn lemma_sub_upto_shape(es: Seq<FsEntry>, bound: int, src: Seq<Seq<u8>>)
    requires
        seq_wf(es),
        0 <= bound <= es.len(),
    ensures
        forall|k: int|
            0 <= k < sp_sub_upto(es, bound, src).len() ==> #[trigger] sp_item_from(
                es,
                bound,
                sp_sub_upto(es, bound, src)[k],
            ),
        forall|k1: int, k2: int|
            0 <= k1 < k2 < sp_sub_upto(es, bound, src).len() ==> sp_sub_upto(es, bound, src)[k1].0
                != sp_sub_upto(es, bound, src)[k2].0,
    decreases bound,
{
    if bound > 0 {
        lemma_sub_upto_shape(es, bound - 1, src);
        let prev = sp_sub_upto(es, bound - 1, src);
        let cur = sp_sub_upto(es, bound, src);
        let p = seq_entry_path(es, bound - 1);
        if sp_starts_with(p, src) && p.len() > src.len() {
            assert(cur == prev.push((p, es[bound - 1].node@)));
            assert forall|k: int| 0 <= k < cur.len() implies #[trigger] sp_item_from(
                es,
                bound,
                cur[k],
            ) by {
                if k < prev.len() {
                    assert(cur[k] == prev[k]);
                    assert(sp_item_from(es, bound - 1, prev[k]));
                    let j = choose|j: int|
                        0 <= j < bound - 1 && #[trigger] seq_entry_path(es, j) == prev[k].0
                            && es[j].node@ == prev[k].1;
                    assert(seq_entry_path(es, j) == cur[k].0 && es[j].node@ == cur[k].1);
                } else {
                    assert(cur[k] == (p, es[bound - 1].node@));
                    assert(seq_entry_path(es, bound - 1) == cur[k].0 && es[bound - 1].node@
                        == cur[k].1);
                }
            }
            assert forall|k1: int, k2: int|
                0 <= k1 < k2 < cur.len() implies cur[k1].0 != cur[k2].0 by {
                if k2 == prev.len() {
                    assert(sp_item_from(es, bound - 1, prev[k1]));
                    let j = choose|j: int|
                        0 <= j < bound - 1 && #[trigger] seq_entry_path(es, j) == prev[k1].0
                            && es[j].node@ == prev[k1].1;
                    if cur[k1].0 == cur[k2].0 {
                        assert(seq_entry_path(es, j) == seq_entry_path(es, bound - 1));
                    }
                } else {
                    assert(cur[k1] == prev[k1] && cur[k2] == prev[k2]);
                }
            }
        } else {
            assert(cur == prev);
            assert forall|k: int| 0 <= k < cur.len() implies #[trigger] sp_item_from(
                es,
                bound,
                cur[k],
            ) by {
                assert(sp_item_from(es, bound - 1, prev[k]));
                let j = choose|j: int|
                    0 <= j < bound - 1 && #[trigger] seq_entry_path(es, j) == prev[k].0
                        && es[j].node@ == prev[k].1;
                assert(seq_entry_path(es, j) == cur[k].0 && es[j].node@ == cur[k].1);
            }
        }
    }
}

/// Every entry strictly below the source among the first `bound` is
/// collected.
pub proof fn lemma_sub_upto_covers(es: Seq<FsEntry>, bound: int, src: Seq<Seq<u8>>, j: int)
    requires
        0 <= j < bound <= es.len(),
        sp_starts_with(seq_entry_path(es, j), src),
        seq_entry_path(es, j).len() > src.len(),
    ensures
        exists|k: int|
            0 <= k < sp_sub_upto(es, bound, src).len() && #[trigger] sp_sub_upto(
                es,
                bound,
                src,
            )[k] == (seq_entry_path(es, j), es[j].node@),
    decreases bound,
{
    let cur = sp_sub_upto(es, bound, src);
    let prev = sp_sub_upto(es, bound - 1, src);
    if j == bound - 1 {
        assert(cur[cur.len() - 1] == (seq_entry_path(es, j), es[j].node@));
    } else {
        lemma_sub_upto_covers(es, bound - 1, src, j);
        let k = choose|k: int|
            0 <= k < prev.len() && #[trigger] prev[k] == (seq_entry_path(es, j), es[j].node@);
        assert(cur[k] == (seq_entry_path(es, j), es[j].node@));
    }
}

/// Every collected item lies strictly below the source.
pub proof fn lemma_sub_upto_under(es: Seq<FsEntry>, bound: int, src: Seq<Seq<u8>>, k: int)
    requires
        0 <= k < sp_sub_upto(es, bound, src).len(),
    ensures
        sp_starts_with(sp_sub_upto(es, bound, src)[k].0, src),
        sp_sub_upto(es, bound, src)[k].0.len() > src.len(),
    decreases bound,
{
    if bound > 0 {
        let rest = sp_sub_upto(es, bound - 1, src);
        if k < rest.len() {
            lemma_sub_upto_under(es, bound - 1, src, k);
        }
    }
}


/// An occupied destination fails a copy with the collision error and
/// leaves the whole tree, the occupant included, untouched.
pub proof fn lemma_copy_no_overwrite(
    m: Map<Seq<Seq<u8>>, NodeV>,
    es: Seq<FsEntry>,
    source: Seq<Seq<u8>>,
    dest_root: Seq<Seq<u8>>,
    dest_name: Seq<u8>,
)
    requires
        valid_name_spec(dest_name),
        m.dom().contains(source) && m[source] is Dir,
        sp_under(m, dest_root.push(dest_name)),
    ensures
        sp_copy_res(m, es, source, dest_root, dest_name).1 == Option::Some(
            ModError::AlreadyExists,
        ),
        sp_copy_res(m, es, source, dest_root, dest_name).0 == m,
{
}


/// A successful run of the copy fold puts every collected item at its
/// relative path below the destination, a file with its bytes and a
/// directory as a directory.
pub proof fn lemma_copy_upto_carries(
    m1: Map<Seq<Seq<u8>>, NodeV>,
    items: Seq<(Seq<Seq<u8>>, NodeV)>,
    k: int,
    j: int,
    src: Seq<Seq<u8>>,
    dest: Seq<Seq<u8>>,
)
    requires
        0 <= j < k <= items.len(),
        sp_copy_upto(m1, items, k, src, dest).1 is None,
        forall|t: int|
            0 <= t < items.len() ==> sp_starts_with(#[trigger] items[t].0, src) && items[t].0.len()
                > src.len(),
        forall|t1: int, t2: int|
            0 <= t1 < t2 < items.len() ==> items[t1].0 != items[t2].0,
    ensures
        ({
            let target = dest + items[j].0.skip(src.len() as int);
            let mk = sp_copy_upto(m1, items, k, src, dest).0;
            &&& mk.dom().contains(target)
            &&& mk[target] == items[j].1
        }),
    decreases k,
{
    let prev = sp_copy_upto(m1, items, k - 1, src, dest);
    assert(prev.1 is None);
    let target_j = dest + items[j].0.skip(src.len() as int);
    let target_k = dest + items[k - 1].0.skip(src.len() as int);
    let step = sp_copy_step(prev.0, items[k - 1].0, items[k - 1].1, src, dest);
    assert(sp_copy_upto(m1, items, k, src, dest) == step);
    if j == k - 1 {
        match items[j].1 {
            NodeV::Dir => {
                assert(sp_can_make_dirs(prev.0, target_j));
                assert(crate::paths::sp_is_nonempty_prefix(target_j, target_j)) by {
                    assert(target_j =~= target_j.take(target_j.len() as int));
                    assert(target_j.len() > 0);
                }
                assert(step.0.dom().contains(target_j));
                assert(step.0[target_j] is Dir) by {
                    if prev.0.dom().contains(target_j) {
                        assert(target_j =~= target_j.take(target_j.len() as int));
                        assert(prev.0.dom().contains(target_j.take(target_j.len() as int)));
                    }
                }
            },
            NodeV::File { data } => {
                assert(step.0 == sp_with_dirs(prev.0, target_j.drop_last()).insert(
                    target_j,
                    NodeV::File { data },
                ));
            },
        }
    } else {
        lemma_copy_upto_carries(m1, items, k - 1, j, src, dest);
        assert(prev.0.dom().contains(target_j) && prev.0[target_j] == items[j].1);
        // The next item's own path differs, so its target differs.
        assert(target_k != target_j) by {
            if target_k == target_j {
                crate::paths::lemma_concat_parts(dest, items[j].0.skip(src.len() as int));
                crate::paths::lemma_concat_parts(dest, items[k - 1].0.skip(src.len() as int));
                assert(items[j].0.skip(src.len() as int) == items[k - 1].0.skip(
                    src.len() as int,
                ));
                crate::paths::lemma_split_at_prefix(items[j].0, src);
                crate::paths::lemma_split_at_prefix(items[k - 1].0, src);
                assert(items[j].0 == items[k - 1].0);
            }
        }
        match items[k - 1].1 {
            NodeV::Dir => {
                assert(step.0.dom().contains(target_j) && step.0[target_j] == items[j].1);
            },
            NodeV::File { data } => {
                assert(step.0.dom().contains(target_j) && step.0[target_j] == items[j].1);
            },
        }
    }
}

/// The copy fold touches nothing outside the destination subtree.
proof fn lemma_copy_upto_confined(
    m1: Map<Seq<Seq<u8>>, NodeV>,
    items: Seq<(Seq<Seq<u8>>, NodeV)>,
    k: int,
    src: Seq<Seq<u8>>,
    dest: Seq<Seq<u8>>,
)
    requires
        dest.len() > 0,
        0 <= k <= items.len(),
        crate::ingest::sp_chain_present(m1, dest),
        forall|t: int|
            0 <= t < items.len() ==> sp_starts_with(#[trigger] items[t].0, src) && items[t].0.len()
                > src.len(),
    ensures
        crate::ingest::sp_chain_present(sp_copy_upto(m1, items, k, src, dest).0, dest),
        forall|q: Seq<Seq<u8>>|
            !sp_starts_with(q, dest) ==> #[trigger] sp_copy_upto(
                m1,
                items,
                k,
                src,
                dest,
            ).0.dom().contains(q) == m1.dom().contains(q) && (m1.dom().contains(q)
                ==> sp_copy_upto(m1, items, k, src, dest).0[q] == m1[q]),
    decreases k,
{
    if k > 0 {
        lemma_copy_upto_confined(m1, items, k - 1, src, dest);
        let prev = sp_copy_upto(m1, items, k - 1, src, dest);
        if prev.1 is None {
            lemma_copy_step_confined(prev.0, items[k - 1].0, items[k - 1].1, src, dest);
        }
    }
}

/// One copy step touches nothing outside the destination subtree.
proof fn lemma_copy_step_confined(
    m: Map<Seq<Seq<u8>>, NodeV>,
    p: Seq<Seq<u8>>,
    node: NodeV,
    src: Seq<Seq<u8>>,
    dest: Seq<Seq<u8>>,
)
    requires
        dest.len() > 0,
        crate::ingest::sp_chain_present(m, dest),
        sp_starts_with(p, src),
        p.len() > src.len(),
    ensures
        crate::ingest::sp_chain_present(sp_copy_step(m, p, node, src, dest).0, dest),
        forall|q: Seq<Seq<u8>>|
            !sp_starts_with(q, dest) ==> #[trigger] sp_copy_step(
                m,
                p,
                node,
                src,
                dest,
            ).0.dom().contains(q) == m.dom().contains(q) && (m.dom().contains(q) ==> sp_copy_step(
                m,
                p,
                node,
                src,
                dest,
            ).0[q] == m[q]),
{
    let m2 = sp_copy_step(m, p, node, src, dest).0;
    let rel = p.skip(src.len() as int);
    let target = dest + rel;
    crate::paths::lemma_concat_parts(dest, rel);
    assert(sp_starts_with(target, dest));
    assert(target.len() > dest.len());
    let base = if node is Dir {
        target
    } else {
        target.drop_last()
    };
    assert(sp_starts_with(base, dest)) by {
        if !(node is Dir) {
            assert(base =~= target.take(target.len() - 1));
            assert(base.take(dest.len() as int) =~= target.take(dest.len() as int));
        }
    }
    assert forall|q: Seq<Seq<u8>>|
        crate::paths::sp_is_nonempty_prefix(q, base) && !sp_starts_with(q, dest) implies m
        .dom()
        .contains(q) by {
        assert(q == base.take(q.len() as int));
        if q.len() > dest.len() {
            assert(q.take(dest.len() as int) =~= base.take(dest.len() as int));
            assert(sp_starts_with(q, dest));
        } else {
            assert(q =~= dest.take(q.len() as int));
        }
    }
    assert forall|q: Seq<Seq<u8>>| !sp_starts_with(q, dest) implies #[trigger] m2.dom().contains(
        q,
    ) == m.dom().contains(q) && (m.dom().contains(q) ==> m2[q] == m[q]) by {
        if !(node is Dir) {
            assert(target != q) by {
                assert(sp_starts_with(target, dest));
            }
        }
    }
    assert(crate::ingest::sp_chain_present(m2, dest)) by {
        assert forall|k: int| 0 < k <= dest.len() implies #[trigger] m2.dom().contains(
            dest.take(k),
        ) by {
            assert(m.dom().contains(dest.take(k)));
        }
    }
}

/// A successful copy materialises the source's whole subtree below the
/// destination — every node strictly below the source also sits at its
/// relative path below the destination with an equal node — and leaves
/// the source side exactly as it was.
pub proof fn lemma_copy_carries_subtree(
    m: Map<Seq<Seq<u8>>, NodeV>,
    es: Seq<FsEntry>,
    source: Seq<Seq<u8>>,
    dest_root: Seq<Seq<u8>>,
    dest_name: Seq<u8>,
    q: Seq<Seq<u8>>,
)
    requires
        seq_wf(es),
        crate::fsmodel::map_of(es) == m,
        sp_copy_res(m, es, source, dest_root, dest_name).1 is None,
        m.dom().contains(q),
        sp_starts_with(q, source),
        q.len() > source.len(),
    ensures
        ({
            let dest = dest_root.push(dest_name);
            let m2 = sp_copy_res(m, es, source, dest_root, dest_name).0;
            &&& m2.dom().contains(dest + q.skip(source.len() as int))
            &&& m2[dest + q.skip(source.len() as int)] == m[q]
            &&& m2.dom().contains(q)
            &&& m2[q] == m[q]
        }),
{
    let dest = dest_root.push(dest_name);
    let m1 = sp_with_dirs(m, dest);
    let items = sp_sub_upto(es, es.len() as int, source);
    let res = sp_copy_res(m, es, source, dest_root, dest_name);
    assert(res.0 == sp_copy_upto(m1, items, items.len() as int, source, dest).0);
    // The entry holding `q` is among the collected items.
    let j = choose|j: int| 0 <= j < es.len() && seq_entry_path(es, j) == q;
    crate::fsmodel::lemma_seq_entry_node(es, j);
    assert(es[j].node@ == m[q]);
    lemma_sub_upto_covers(es, es.len() as int, source, j);
    let k = choose|k: int|
        0 <= k < items.len() && #[trigger] items[k] == (seq_entry_path(es, j), es[j].node@);
    lemma_sub_upto_shape(es, es.len() as int, source);
    assert forall|t: int|
        0 <= t < items.len() implies sp_starts_with(#[trigger] items[t].0, source)
        && items[t].0.len() > source.len() by {
        lemma_sub_upto_under(es, es.len() as int, source, t);
    }
    lemma_copy_upto_carries(m1, items, items.len() as int, k, source, dest);
    assert(res.0.dom().contains(dest + q.skip(source.len() as int)));
    assert(res.0[dest + q.skip(source.len() as int)] == m[q]);
    // The source side sits outside the destination subtree and is kept.
    assert(!sp_starts_with(q, dest)) by {
        if sp_starts_with(q, dest) {
            assert(sp_under(m, dest));
        }
    }
    assert(crate::ingest::sp_chain_present(m1, dest)) by {
        assert forall|t: int| 0 < t <= dest.len() implies #[trigger] m1.dom().contains(
            dest.take(t),
        ) by {
            assert(crate::paths::sp_is_nonempty_prefix(dest.take(t), dest)) by {
                assert(dest.take(t) =~= dest.take(dest.take(t).len() as int));
            }
        }
    }
    lemma_copy_upto_confined(m1, items, items.len() as int, source, dest);
    assert(m1.dom().contains(q) && m1[q] == m[q]);
    assert(res.0.dom().contains(q) && res.0[q] == m[q]);
}

} // verus!
