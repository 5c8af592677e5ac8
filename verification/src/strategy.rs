//! The activation state machine: how "enabled" versus "disabled" is
//! encoded on disk.
//!
//! Two interchangeable encodings exist. Extension rewriting renames the
//! resource files inside the mod folder, appending or stripping a
//! reversible suffix, and leaves the folder in place. Folder relocation
//! moves the whole mod folder between the managed root and a holding
//! directory for disabled mods.

use vstd::prelude::*;

use crate::fsmodel::{
    ActionV, Fs, FsAction, FsEntry, FsNode, NodeV, lemma_seq_entry_node, map_of, seq_entry_path,
    seq_has_path, seq_wf, sp_can_make_dirs, sp_rename, sp_rename_ok, sp_under, sp_with_dirs,
};
use crate::names::{
    bak_ext, bak_suffix, lemma_disable_then_enable, lemma_enables_shape, name_toggled,
    name_toggles, sp_name_enables, sp_name_toggled, sp_name_toggles, valid_name, valid_name_spec,
};
use crate::paths::{
    bytes_eq, clone_path, lemma_concat_parts, path_join, path_starts_with, path_view,
    sp_is_nonempty_prefix, sp_starts_with,
};

verus! {

/// Why an operation on the managed tree failed.
#[derive(Clone, Copy, Debug, PartialEq, Eq, Structural)]
pub enum ModError {
    /// An expected path is missing.
    NotFound,
    /// The destination is already occupied.
    AlreadyExists,
    /// A leaf name is malformed or would escape the root.
    InvalidName,
    /// The underlying rename, create or copy cannot be performed.
    IoFailure,
    /// The strategy identifier is not recognised.
    UnknownStrategy,
    /// The archive container or one of its entries cannot be read.
    ArchiveCorrupt,
}

/// An error as the outcome of an operation.
pub open spec fn as_result(e: Option<ModError>) -> Result<(), ModError> {
    match e {
        Option::None => Result::Ok(()),
        Option::Some(x) => Result::Err(x),
    }
}

/// The file at `q` is renamed by a rewrite pass over the mod folder at
/// `mp`: it lies strictly below the folder and its name matches the
/// direction of the pass.
pub open spec fn sp_affected(
    m: Map<Seq<Seq<u8>>, NodeV>,
    mp: Seq<Seq<u8>>,
    enable: bool,
    ext: Seq<u8>,
    q: Seq<Seq<u8>>,
) -> bool {
    &&& m.dom().contains(q)
    &&& sp_starts_with(q, mp)
    &&& q.len() > mp.len()
    &&& m[q] is File
    &&& sp_name_toggles(q.last(), enable, ext)
}

/// The path of a renamed file after the pass.
pub open spec fn sp_tx_file(q: Seq<Seq<u8>>, enable: bool, ext: Seq<u8>) -> Seq<Seq<u8>> {
    q.update(q.len() - 1, sp_name_toggled(q.last(), enable, ext))
}

/// The name a renamed file had before the pass.
pub open spec fn sp_untx_name(n: Seq<u8>, enable: bool, ext: Seq<u8>) -> Seq<u8> {
    if enable {
        n + bak_suffix()
    } else {
        n.take(n.len() - 4)
    }
}

/// The path a renamed file had before the pass.
pub open spec fn sp_src_of(q: Seq<Seq<u8>>, enable: bool, ext: Seq<u8>) -> Seq<Seq<u8>> {
    q.update(q.len() - 1, sp_untx_name(q.last(), enable, ext))
}

/// The pass succeeds: no renamed file's new path is already occupied.
pub open spec fn sp_rewrite_ok(
    m: Map<Seq<Seq<u8>>, NodeV>,
    mp: Seq<Seq<u8>>,
    enable: bool,
    ext: Seq<u8>,
) -> bool {
    forall|q: Seq<Seq<u8>>|
        #[trigger] sp_affected(m, mp, enable, ext, q) ==> !m.dom().contains(
            sp_tx_file(q, enable, ext),
        )
}

/// The tree after a successful pass: every affected file sits at its
/// renamed path, everything else is unchanged.
pub open spec fn sp_rewrite(
    m: Map<Seq<Seq<u8>>, NodeV>,
    mp: Seq<Seq<u8>>,
    enable: bool,
    ext: Seq<u8>,
) -> Map<Seq<Seq<u8>>, NodeV> {
    Map::new(
        |q: Seq<Seq<u8>>| {
            if q.len() > 0 && sp_affected(m, mp, enable, ext, sp_src_of(q, enable, ext))
                && sp_tx_file(sp_src_of(q, enable, ext), enable, ext) == q {
                true
            } else {
                m.dom().contains(q) && !sp_affected(m, mp, enable, ext, q)
            }
        },
        |q: Seq<Seq<u8>>| {
            if q.len() > 0 && sp_affected(m, mp, enable, ext, sp_src_of(q, enable, ext))
                && sp_tx_file(sp_src_of(q, enable, ext), enable, ext) == q {
                m[sp_src_of(q, enable, ext)]
            } else {
                m[q]
            }
        },
    )
}

/// The error of a rewrite pass, if any: the mod folder must exist as a
/// directory, and no renamed file's new path may be occupied.
pub open spec fn sp_rewrite_err(
    m: Map<Seq<Seq<u8>>, NodeV>,
    mp: Seq<Seq<u8>>,
    enable: bool,
    ext: Seq<u8>,
) -> Option<ModError> {
    if !(m.dom().contains(mp) && m[mp] is Dir) {
        Option::Some(ModError::NotFound)
    } else if !sp_rewrite_ok(m, mp, enable, ext) {
        Option::Some(ModError::AlreadyExists)
    } else {
        Option::None
    }
}

/// The tree after a rewrite pass: changed only on success.
pub open spec fn sp_rewrite_map(
    m: Map<Seq<Seq<u8>>, NodeV>,
    mp: Seq<Seq<u8>>,
    enable: bool,
    ext: Seq<u8>,
) -> Map<Seq<Seq<u8>>, NodeV> {
    if sp_rewrite_err(m, mp, enable, ext) is None {
        sp_rewrite(m, mp, enable, ext)
    } else {
        m
    }
}

/// The disk actions a rewrite pass records, in entry order: one rename
/// per affected file among the first `bound` entries.
pub open spec fn sp_rewrite_log(
    es: Seq<FsEntry>,
    bound: int,
    m0: Map<Seq<Seq<u8>>, NodeV>,
    mp: Seq<Seq<u8>>,
    enable: bool,
    ext: Seq<u8>,
) -> Seq<ActionV>
    decreases bound,
{
    if bound <= 0 {
        Seq::empty()
    } else {
        let rest = sp_rewrite_log(es, bound - 1, m0, mp, enable, ext);
        let p = seq_entry_path(es, bound - 1);
        if sp_affected(m0, mp, enable, ext, p) {
            rest.push(ActionV::Rename { from: p, to: sp_tx_file(p, enable, ext) })
        } else {
            rest
        }
    }
}

/// Renaming a file and undoing the rename restores its path.
pub proof fn lemma_tx_src(q: Seq<Seq<u8>>, enable: bool, ext: Seq<u8>)
    requires
        q.len() > 0,
        sp_name_toggles(q.last(), enable, ext),
    ensures
        sp_tx_file(q, enable, ext).len() == q.len(),
        sp_tx_file(q, enable, ext).last() == sp_name_toggled(q.last(), enable, ext),
        sp_src_of(sp_tx_file(q, enable, ext), enable, ext) == q,
        sp_tx_file(q, enable, ext).take(q.len() - 1) == q.take(q.len() - 1),
{
    let n = q.last();
    let t = sp_name_toggled(n, enable, ext);
    assert(sp_untx_name(t, enable, ext) == n) by {
        if enable {
            lemma_enables_shape(n, ext);
            assert(n.take(n.len() - 4) + bak_suffix() =~= n);
        } else {
            assert((n + bak_suffix()).take(n.len() as int) =~= n);
        }
    }
    assert(sp_tx_file(q, enable, ext).last() == t);
    assert(sp_src_of(sp_tx_file(q, enable, ext), enable, ext) =~~= q);
    assert(sp_tx_file(q, enable, ext).take(q.len() - 1) =~= q.take(q.len() - 1));
}

/// The renamed path of a concrete file path.
fn tx_path_exec(path: &Vec<Vec<u8>>, enable: bool, ext: &Vec<u8>) -> (r: Vec<Vec<u8>>)
    requires
        path@.len() > 0,
        sp_name_toggles(path_view(*path).last(), enable, ext@),
    ensures
        path_view(r) == sp_tx_file(path_view(*path), enable, ext@),
{
    let nm = name_toggled(&path[path.len() - 1], enable, ext);
    let mut np = clone_path(path);
    let l = np.len() - 1;
    np[l] = nm;
    proof {
        assert(path_view(np) =~= sp_tx_file(path_view(*path), enable, ext@));
    }
    np
}

/// The entry's own path and node mark it as renamed by the pass.
pub open spec fn sp_entry_affected(
    path: Seq<Seq<u8>>,
    node: NodeV,
    mp: Seq<Seq<u8>>,
    enable: bool,
    ext: Seq<u8>,
) -> bool {
    &&& sp_starts_with(path, mp)
    &&& path.len() > mp.len()
    &&& node is File
    &&& sp_name_toggles(path.last(), enable, ext)
}

/// Whether this entry is renamed by the pass.
fn entry_matches(e: &FsEntry, mod_path: &Vec<Vec<u8>>, enable: bool, ext: &Vec<u8>) -> (r: bool)
    ensures
        r == sp_entry_affected(path_view(e.path), e.node@, path_view(*mod_path), enable, ext@),
{
    let is_file = match &e.node {
        FsNode::File { .. } => true,
        FsNode::Dir => false,
    };
    if !is_file {
        return false;
    }
    if !path_starts_with(&e.path, mod_path) {
        return false;
    }
    if e.path.len() <= mod_path.len() {
        return false;
    }
    proof {
        assert(path_view(e.path).last() == e.path@[e.path@.len() - 1]@);
    }
    name_toggles(&e.path[e.path.len() - 1], enable, ext)
}


/// Applies one rewrite pass to the mod folder at `mod_path`: on disable
/// every resource file gains the reversible suffix, on enable every
/// suffixed resource file loses it again. No file is renamed twice; a
/// pass whose renames would collide with an existing path fails before
/// touching anything.
#[verifier::loop_isolation(false)]
#[verifier::rlimit(30)]
pub fn toggle_files(fs: &mut Fs, mod_path: &Vec<Vec<u8>>, enable: bool, ext: &Vec<u8>) -> (r:
    Result<(), ModError>)
    requires
        old(fs).wf(),
    ensures
        final(fs).wf(),
        r == as_result(sp_rewrite_err(old(fs)@, path_view(*mod_path), enable, ext@)),
        final(fs)@ == sp_rewrite_map(old(fs)@, path_view(*mod_path), enable, ext@),
        final(fs).log_view() == old(fs).log_view() + (
        if sp_rewrite_err(old(fs)@, path_view(*mod_path), enable, ext@) is None {
            sp_rewrite_log(
                old(fs).entries@,
                old(fs).entries@.len() as int,
                old(fs)@,
                path_view(*mod_path),
                enable,
                ext@,
            )
        } else {
            Seq::empty()
        }),
        r is Err ==> final(fs)@ == old(fs)@ && final(fs).log_view() == old(fs).log_view(),
{
    let ghost m0 = fs@;
    let ghost mp = path_view(*mod_path);
    let ghost ev = ext@;
    proof {
        assert(old(fs).log_view() + Seq::<ActionV>::empty() =~= old(fs).log_view());
    }
    if !fs.is_dir_at(mod_path) {
        return Err(ModError::NotFound);
    }
    let n = fs.entries.len();
    // First pass: find any rename whose target is already occupied.
    let mut i: usize = 0;
    while i < n
        invariant
            0 <= i <= n,
            forall|b: int|
                0 <= b < i && sp_affected(m0, mp, enable, ev, #[trigger] fs.entry_path(b))
                    ==> !m0.dom().contains(sp_tx_file(fs.entry_path(b), enable, ev)),
        decreases n - i,
    {
        if entry_matches(&fs.entries[i], mod_path, enable, ext) {
            proof {
                fs.lemma_entry_node(i as int);
            }
            let target = tx_path_exec(&fs.entries[i].path, enable, ext);
            if fs.find_index(&target).is_some() {
                proof {
                    let q = fs.entry_path(i as int);
                    assert(sp_affected(m0, mp, enable, ev, q));
                    assert(m0.dom().contains(sp_tx_file(q, enable, ev)));
                    assert(!sp_rewrite_ok(m0, mp, enable, ev));
                }
                return Err(ModError::AlreadyExists);
            }
        } else {
            proof {
                fs.lemma_entry_node(i as int);
                assert(!sp_affected(m0, mp, enable, ev, fs.entry_path(i as int)));
            }
        }
        i += 1;
    }
    proof {
        assert forall|q: Seq<Seq<u8>>|
            #[trigger] sp_affected(m0, mp, enable, ev, q) implies !m0.dom().contains(
            sp_tx_file(q, enable, ev),
        ) by {
            let b = choose|b: int| 0 <= b < fs.entries@.len() && fs.entry_path(b) == q;
            assert(0 <= b < n && sp_affected(m0, mp, enable, ev, fs.entry_path(b)));
        }
        assert(sp_rewrite_ok(m0, mp, enable, ev));
        assert(fs.log_view() =~= old(fs).log_view() + sp_rewrite_log(
            old(fs).entries@,
            0,
            m0,
            mp,
            enable,
            ev,
        ));
    }
    // Second pass: rename every affected file, logging each rename.
    let mut i: usize = 0;
    while i < n
        invariant
            0 <= i <= n,
            fs.entries@.len() == n,
            forall|b: int| i <= b < n ==> fs.entries@[b] == old(fs).entries@[b],
            forall|b: int|
                0 <= b < n ==> #[trigger] fs.entries@[b].node@ == old(fs).entries@[b].node@,
            forall|b: int|
                0 <= b < i ==> #[trigger] seq_entry_path(fs.entries@, b) == (
                if sp_affected(m0, mp, enable, ev, seq_entry_path(old(fs).entries@, b)) {
                    sp_tx_file(seq_entry_path(old(fs).entries@, b), enable, ev)
                } else {
                    seq_entry_path(old(fs).entries@, b)
                }),
            fs.log_view() == old(fs).log_view() + sp_rewrite_log(
                old(fs).entries@,
                i as int,
                m0,
                mp,
                enable,
                ev,
            ),
        decreases n - i,
    {
        let ghost loop_log = fs.log_view();
        let affected = entry_matches(&fs.entries[i], mod_path, enable, ext);
        proof {
            old(fs).lemma_entry_node(i as int);
            assert(seq_entry_path(fs.entries@, i as int) == seq_entry_path(
                old(fs).entries@,
                i as int,
            ));
            assert(affected == sp_affected(
                m0,
                mp,
                enable,
                ev,
                seq_entry_path(old(fs).entries@, i as int),
            ));
        }
        if affected {
            let from_path = clone_path(&fs.entries[i].path);
            let np = tx_path_exec(&fs.entries[i].path, enable, ext);
            let to_path = clone_path(&np);
            let ghost before_set = *fs;
            fs.entries[i].path = np;
            fs.log.push(FsAction::Rename { from: from_path, to: to_path });
            proof {
                assert(seq_entry_path(fs.entries@, i as int) == sp_tx_file(
                    seq_entry_path(old(fs).entries@, i as int),
                    enable,
                    ev,
                ));
                assert forall|b: int| 0 <= b < n implies #[trigger] fs.entries@[b].node@ == old(
                    fs,
                ).entries@[b].node@ by {
                    if b != i {
                        assert(fs.entries@[b] == before_set.entries@[b]);
                    } else {
                        assert(fs.entries@[b].node == before_set.entries@[b].node);
                    }
                    assert(before_set.entries@[b].node@ == old(fs).entries@[b].node@);
                }
                assert forall|b: int| 0 <= b < i implies #[trigger] seq_entry_path(
                    fs.entries@,
                    b,
                ) == (
                if sp_affected(m0, mp, enable, ev, seq_entry_path(old(fs).entries@, b)) {
                    sp_tx_file(seq_entry_path(old(fs).entries@, b), enable, ev)
                } else {
                    seq_entry_path(old(fs).entries@, b)
                }) by {
                    assert(fs.entries@[b] == before_set.entries@[b]);
                    assert(seq_entry_path(before_set.entries@, b) == (
                    if sp_affected(m0, mp, enable, ev, seq_entry_path(old(fs).entries@, b)) {
                        sp_tx_file(seq_entry_path(old(fs).entries@, b), enable, ev)
                    } else {
                        seq_entry_path(old(fs).entries@, b)
                    }));
                }
                assert(fs.log_view() =~= loop_log.push(
                    ActionV::Rename {
                        from: seq_entry_path(old(fs).entries@, i as int),
                        to: sp_tx_file(seq_entry_path(old(fs).entries@, i as int), enable, ev),
                    },
                ));
                assert(fs.log_view() =~= old(fs).log_view() + sp_rewrite_log(
                    old(fs).entries@,
                    i + 1,
                    m0,
                    mp,
                    enable,
                    ev,
                ));
            }
        }
        i += 1;
    }
    proof {
        lemma_rewrite_final(old(fs).entries@, fs.entries@, mp, enable, ev);
        assert(fs@ == sp_rewrite_map(m0, mp, enable, ev));
    }
    Ok(())
}

/// After the second pass, the entry list realises the rewritten map.
proof fn lemma_rewrite_final(
    pre: Seq<FsEntry>,
    post: Seq<FsEntry>,
    mp: Seq<Seq<u8>>,
    enable: bool,
    ev: Seq<u8>,
)
    requires
        seq_wf(pre),
        sp_rewrite_ok(map_of(pre), mp, enable, ev),
        post.len() == pre.len(),
        forall|b: int| 0 <= b < post.len() ==> #[trigger] post[b].node@ == pre[b].node@,
        forall|b: int|
            0 <= b < post.len() ==> #[trigger] seq_entry_path(post, b) == (
            if sp_affected(map_of(pre), mp, enable, ev, seq_entry_path(pre, b)) {
                sp_tx_file(seq_entry_path(pre, b), enable, ev)
            } else {
                seq_entry_path(pre, b)
            }),
    ensures
        seq_wf(post),
        map_of(post) == sp_rewrite(map_of(pre), mp, enable, ev),
{
    let m0 = map_of(pre);
    let n = pre.len() as int;
    assert forall|b: int|
        0 <= b < n && sp_affected(m0, mp, enable, ev, #[trigger] seq_entry_path(pre, b)) implies {
        &&& seq_entry_path(post, b).len() == seq_entry_path(pre, b).len()
        &&& sp_src_of(seq_entry_path(post, b), enable, ev) == seq_entry_path(pre, b)
    } by {
        lemma_tx_src(seq_entry_path(pre, b), enable, ev);
    }
    assert forall|b: int| 0 <= b < n implies #[trigger] seq_entry_path(post, b).len() > 0 by {
        assert(seq_entry_path(pre, b).len() > 0);
    }
    assert forall|b1: int, b2: int|
        0 <= b1 < n && 0 <= b2 < n && b1 != b2 implies seq_entry_path(post, b1)
        != seq_entry_path(post, b2) by {
        let p1 = seq_entry_path(pre, b1);
        let p2 = seq_entry_path(pre, b2);
        assert(p1 != p2);
        lemma_seq_entry_node(pre, b1);
        lemma_seq_entry_node(pre, b2);
        let a1 = sp_affected(m0, mp, enable, ev, p1);
        let a2 = sp_affected(m0, mp, enable, ev, p2);
        if seq_entry_path(post, b1) == seq_entry_path(post, b2) {
            if a1 && a2 {
                lemma_tx_src(p1, enable, ev);
                lemma_tx_src(p2, enable, ev);
                assert(p1 == p2);
            } else if a1 && !a2 {
                assert(m0.dom().contains(p2));
                assert(!m0.dom().contains(sp_tx_file(p1, enable, ev)));
            } else if !a1 && a2 {
                assert(m0.dom().contains(p1));
                assert(!m0.dom().contains(sp_tx_file(p2, enable, ev)));
            }
        }
    }
    assert(seq_wf(post));
    assert forall|q: Seq<Seq<u8>>|
        seq_has_path(post, q) == sp_rewrite(m0, mp, enable, ev).dom().contains(q) by {
        if seq_has_path(post, q) {
            let b = choose|b: int| 0 <= b < post.len() && seq_entry_path(post, b) == q;
            let p = seq_entry_path(pre, b);
            lemma_seq_entry_node(pre, b);
            if sp_affected(m0, mp, enable, ev, p) {
                lemma_tx_src(p, enable, ev);
                assert(q == sp_tx_file(p, enable, ev));
                assert(sp_src_of(q, enable, ev) == p);
                assert(q.len() > 0);
                assert(sp_rewrite(m0, mp, enable, ev).dom().contains(q));
            } else {
                assert(q == p);
                assert(m0.dom().contains(q));
                assert(!(sp_affected(m0, mp, enable, ev, sp_src_of(q, enable, ev)) && sp_tx_file(
                    sp_src_of(q, enable, ev),
                    enable,
                    ev,
                ) == q)) by {
                    if sp_affected(m0, mp, enable, ev, sp_src_of(q, enable, ev)) && sp_tx_file(
                        sp_src_of(q, enable, ev),
                        enable,
                        ev,
                    ) == q {
                        assert(!m0.dom().contains(q));
                    }
                }
                assert(sp_rewrite(m0, mp, enable, ev).dom().contains(q));
            }
        }
        if sp_rewrite(m0, mp, enable, ev).dom().contains(q) {
            if sp_affected(m0, mp, enable, ev, sp_src_of(q, enable, ev)) && sp_tx_file(
                sp_src_of(q, enable, ev),
                enable,
                ev,
            ) == q && q.len() > 0 {
                let p = sp_src_of(q, enable, ev);
                let b = choose|b: int| 0 <= b < pre.len() && seq_entry_path(pre, b) == p;
                assert(seq_entry_path(post, b) == q);
                assert(seq_has_path(post, q));
            } else {
                assert(m0.dom().contains(q) && !sp_affected(m0, mp, enable, ev, q));
                let b = choose|b: int| 0 <= b < pre.len() && seq_entry_path(pre, b) == q;
                assert(seq_entry_path(post, b) == q);
                assert(seq_has_path(post, q));
            }
        }
    }
    assert forall|q: Seq<Seq<u8>>| #[trigger]
        map_of(post).dom().contains(q) implies map_of(post)[q] == sp_rewrite(
        m0,
        mp,
        enable,
        ev,
    )[q] by {
        let b = choose|b: int| 0 <= b < post.len() && seq_entry_path(post, b) == q;
        lemma_seq_entry_node(post, b);
        let p = seq_entry_path(pre, b);
        lemma_seq_entry_node(pre, b);
        if sp_affected(m0, mp, enable, ev, p) {
            lemma_tx_src(p, enable, ev);
            assert(q == sp_tx_file(p, enable, ev));
            assert(sp_src_of(q, enable, ev) == p);
            assert(sp_rewrite(m0, mp, enable, ev)[q] == m0[p]);
            assert(map_of(post)[q] == post[b].node@);
            assert(m0[p] == pre[b].node@);
        } else {
            assert(q == p);
            assert(!(sp_affected(m0, mp, enable, ev, sp_src_of(q, enable, ev)) && sp_tx_file(
                sp_src_of(q, enable, ev),
                enable,
                ev,
            ) == q)) by {
                if sp_affected(m0, mp, enable, ev, sp_src_of(q, enable, ev)) && sp_tx_file(
                    sp_src_of(q, enable, ev),
                    enable,
                    ev,
                ) == q {
                    assert(!m0.dom().contains(q));
                }
            }
            assert(sp_rewrite(m0, mp, enable, ev)[q] == m0[q]);
            assert(map_of(post)[q] == post[b].node@);
            assert(m0[q] == pre[b].node@);
        }
    }
    assert(map_of(post) =~= sp_rewrite(m0, mp, enable, ev));
}


/// The strategy identifier that selects extension rewriting.
pub open spec fn ww_id() -> Seq<u8> {
    seq![119u8, 117, 116, 104, 101, 114, 105, 110, 103, 95, 119, 97, 118, 101, 115]
}

/// The strategy identifier that selects folder relocation.
pub open spec fn generic_id() -> Seq<u8> {
    seq![103u8, 101, 110, 101, 114, 105, 99, 95, 114, 101, 110, 97, 109, 101]
}

/// The resource-file extension that extension rewriting targets.
pub open spec fn ini_ext() -> Seq<u8> {
    seq![105u8, 110, 105]
}

/// The error of a folder relocation, if any. A mod already in the wanted
/// place is a success without work; a mod in neither place is missing.
/// The holding directory is made before the move, so a failure after
/// that point leaves it created.
pub open spec fn sp_relocate_err(
    m: Map<Seq<Seq<u8>>, NodeV>,
    root: Seq<Seq<u8>>,
    name: Seq<u8>,
    holding: Seq<u8>,
    enable: bool,
) -> Option<ModError> {
    let active = root.push(name);
    let hold_dir = root.push(holding);
    let parked = hold_dir.push(name);
    let src = if enable { parked } else { active };
    let dst = if enable { active } else { parked };
    if !m.dom().contains(src) {
        if m.dom().contains(dst) {
            Option::None
        } else {
            Option::Some(ModError::NotFound)
        }
    } else if !sp_can_make_dirs(m, hold_dir) {
        Option::Some(ModError::IoFailure)
    } else {
        let m1 = sp_with_dirs(m, hold_dir);
        if sp_under(m1, dst) {
            Option::Some(ModError::AlreadyExists)
        } else if !sp_rename_ok(m1, src, dst) {
            Option::Some(ModError::IoFailure)
        } else {
            Option::None
        }
    }
}

/// The tree after a folder relocation.
pub open spec fn sp_relocate_map(
    m: Map<Seq<Seq<u8>>, NodeV>,
    root: Seq<Seq<u8>>,
    name: Seq<u8>,
    holding: Seq<u8>,
    enable: bool,
) -> Map<Seq<Seq<u8>>, NodeV> {
    let active = root.push(name);
    let hold_dir = root.push(holding);
    let parked = hold_dir.push(name);
    let src = if enable { parked } else { active };
    let dst = if enable { active } else { parked };
    if !m.dom().contains(src) {
        m
    } else if !sp_can_make_dirs(m, hold_dir) {
        m
    } else {
        let m1 = sp_with_dirs(m, hold_dir);
        if sp_under(m1, dst) {
            m1
        } else if !sp_rename_ok(m1, src, dst) {
            m1
        } else {
            sp_rename(m1, src, dst)
        }
    }
}

/// The disk actions a folder relocation records, in replay order: at
/// most the holding directory's creation and one atomic rename.
pub open spec fn sp_relocate_log(
    m: Map<Seq<Seq<u8>>, NodeV>,
    root: Seq<Seq<u8>>,
    name: Seq<u8>,
    holding: Seq<u8>,
    enable: bool,
) -> Seq<ActionV> {
    let active = root.push(name);
    let hold_dir = root.push(holding);
    let parked = hold_dir.push(name);
    let src = if enable { parked } else { active };
    let dst = if enable { active } else { parked };
    if !m.dom().contains(src) {
        Seq::empty()
    } else if !sp_can_make_dirs(m, hold_dir) {
        Seq::empty()
    } else {
        let m1 = sp_with_dirs(m, hold_dir);
        let made = seq![ActionV::CreateDirAll { path: hold_dir }];
        if sp_under(m1, dst) {
            made
        } else if !sp_rename_ok(m1, src, dst) {
            made
        } else {
            made.push(ActionV::Rename { from: src, to: dst })
        }
    }
}

/// Relocates the mod folder `name` between the managed root and the
/// holding directory `disabled_folder`. A mod already in the wanted
/// place is left alone; the holding directory is created on demand.
pub fn toggle_generic_rename(
    fs: &mut Fs,
    root: &Vec<Vec<u8>>,
    name: &Vec<u8>,
    enable: bool,
    disabled_folder: &Vec<u8>,
) -> (r: Result<(), ModError>)
    requires
        old(fs).wf(),
    ensures
        final(fs).wf(),
        r == as_result(
            sp_relocate_err(old(fs)@, path_view(*root), name@, disabled_folder@, enable),
        ),
        final(fs)@ == sp_relocate_map(old(fs)@, path_view(*root), name@, disabled_folder@, enable),
        final(fs).log_view() == old(fs).log_view() + sp_relocate_log(
            old(fs)@,
            path_view(*root),
            name@,
            disabled_folder@,
            enable,
        ),
{
    let active = path_join(root, name);
    let hold_dir = path_join(root, disabled_folder);
    let parked = path_join(&hold_dir, name);
    let ghost log0 = old(fs).log_view();
    proof {
        assert(log0 + Seq::<ActionV>::empty() =~= log0);
    }
    let (src, dst) = if enable {
        (parked, active)
    } else {
        (active, parked)
    };
    if !fs.exists_at(&src) {
        if fs.exists_at(&dst) {
            return Ok(());
        } else {
            return Err(ModError::NotFound);
        }
    }
    match fs.create_dir_all(&hold_dir) {
        Err(_) => {
            return Err(ModError::IoFailure);
        },
        Ok(_) => {},
    }
    proof {
        assert(fs.log_view() =~= log0 + seq![
            ActionV::CreateDirAll { path: path_view(hold_dir) },
        ]);
    }
    if fs.exists_under(&dst) {
        return Err(ModError::AlreadyExists);
    }
    let ghost log1 = fs.log_view();
    match fs.rename(&src, &dst) {
        Ok(_) => {
            proof {
                assert(fs.log_view() =~= log0 + seq![
                    ActionV::CreateDirAll { path: path_view(hold_dir) },
                ].push(ActionV::Rename { from: path_view(src), to: path_view(dst) }));
            }
            Ok(())
        },
        Err(_) => Err(ModError::IoFailure),
    }
}

/// The error of a toggle, if any: the mod name (and, for relocation, the
/// holding folder name) must be a valid leaf name and the strategy
/// identifier must be known; the rest follows the chosen strategy.
pub open spec fn sp_toggle_err(
    m: Map<Seq<Seq<u8>>, NodeV>,
    root: Seq<Seq<u8>>,
    name: Seq<u8>,
    enable: bool,
    strat: Seq<u8>,
    holding: Seq<u8>,
) -> Option<ModError> {
    if !valid_name_spec(name) {
        Option::Some(ModError::InvalidName)
    } else if strat == ww_id() {
        sp_rewrite_err(m, root.push(name), enable, ini_ext())
    } else if strat == generic_id() {
        if !valid_name_spec(holding) {
            Option::Some(ModError::InvalidName)
        } else {
            sp_relocate_err(m, root, name, holding, enable)
        }
    } else {
        Option::Some(ModError::UnknownStrategy)
    }
}

/// The tree after a toggle.
pub open spec fn sp_toggle_map(
    m: Map<Seq<Seq<u8>>, NodeV>,
    root: Seq<Seq<u8>>,
    name: Seq<u8>,
    enable: bool,
    strat: Seq<u8>,
    holding: Seq<u8>,
) -> Map<Seq<Seq<u8>>, NodeV> {
    if !valid_name_spec(name) {
        m
    } else if strat == ww_id() {
        sp_rewrite_map(m, root.push(name), enable, ini_ext())
    } else if strat == generic_id() {
        if !valid_name_spec(holding) {
            m
        } else {
            sp_relocate_map(m, root, name, holding, enable)
        }
    } else {
        m
    }
}

/// The disk actions a toggle records, in replay order.
pub open spec fn sp_toggle_log(
    m: Map<Seq<Seq<u8>>, NodeV>,
    es: Seq<FsEntry>,
    root: Seq<Seq<u8>>,
    name: Seq<u8>,
    enable: bool,
    strat: Seq<u8>,
    holding: Seq<u8>,
) -> Seq<ActionV> {
    if !valid_name_spec(name) {
        Seq::empty()
    } else if strat == ww_id() {
        if sp_rewrite_err(m, root.push(name), enable, ini_ext()) is None {
            sp_rewrite_log(es, es.len() as int, m, root.push(name), enable, ini_ext())
        } else {
            Seq::empty()
        }
    } else if strat == generic_id() {
        if !valid_name_spec(holding) {
            Seq::empty()
        } else {
            sp_relocate_log(m, root, name, holding, enable)
        }
    } else {
        Seq::empty()
    }
}

/// Applies one rewrite pass over the resource files with the fixed
/// game-resource extension.
pub fn toggle_wuthering_waves(fs: &mut Fs, mod_path: &Vec<Vec<u8>>, enable: bool) -> (r: Result<
    (),
    ModError,
>)
    requires
        old(fs).wf(),
    ensures
        final(fs).wf(),
        r == as_result(sp_rewrite_err(old(fs)@, path_view(*mod_path), enable, ini_ext())),
        final(fs)@ == sp_rewrite_map(old(fs)@, path_view(*mod_path), enable, ini_ext()),
        final(fs).log_view() == old(fs).log_view() + (
        if sp_rewrite_err(old(fs)@, path_view(*mod_path), enable, ini_ext()) is None {
            sp_rewrite_log(
                old(fs).entries@,
                old(fs).entries@.len() as int,
                old(fs)@,
                path_view(*mod_path),
                enable,
                ini_ext(),
            )
        } else {
            Seq::empty()
        }),
        r is Err ==> final(fs)@ == old(fs)@ && final(fs).log_view() == old(fs).log_view(),
{
    let ini: Vec<u8> = vec![105u8, 110, 105];
    proof {
        assert(ini@ =~= ini_ext());
    }
    toggle_files(fs, mod_path, enable, &ini)
}

/// Moves the mod named `name` under `root` into the requested activation
/// state, using the strategy that `strategy` names. A mod already in the
/// requested state is a success without work; a mod present in neither
/// expected place is missing.
pub fn toggle_mod(
    fs: &mut Fs,
    root: &Vec<Vec<u8>>,
    name: &Vec<u8>,
    enable: bool,
    strategy: &Vec<u8>,
    disabled_folder: &Vec<u8>,
) -> (r: Result<(), ModError>)
    requires
        old(fs).wf(),
    ensures
        final(fs).wf(),
        r == as_result(
            sp_toggle_err(old(fs)@, path_view(*root), name@, enable, strategy@, disabled_folder@),
        ),
        final(fs)@ == sp_toggle_map(
            old(fs)@,
            path_view(*root),
            name@,
            enable,
            strategy@,
            disabled_folder@,
        ),
        final(fs).log_view() == old(fs).log_view() + sp_toggle_log(
            old(fs)@,
            old(fs).entries@,
            path_view(*root),
            name@,
            enable,
            strategy@,
            disabled_folder@,
        ),
        old(fs).log_view().is_prefix_of(final(fs).log_view()),
{
    proof {
        assert(old(fs).log_view() + Seq::<ActionV>::empty() =~= old(fs).log_view());
        assert(old(fs).log_view().is_prefix_of(old(fs).log_view()));
    }
    if !valid_name(name) {
        return Err(ModError::InvalidName);
    }
    let ww: Vec<u8> = vec![119u8, 117, 116, 104, 101, 114, 105, 110, 103, 95, 119, 97, 118, 101,
        115];
    proof {
        assert(ww@ =~= ww_id());
    }
    if bytes_eq(strategy, &ww) {
        let mp = path_join(root, name);
        return toggle_wuthering_waves(fs, &mp, enable);
    }
    let generic: Vec<u8> = vec![103u8, 101, 110, 101, 114, 105, 99, 95, 114, 101, 110, 97, 109,
        101];
    proof {
        assert(generic@ =~= generic_id());
    }
    if bytes_eq(strategy, &generic) {
        if !valid_name(disabled_folder) {
            return Err(ModError::InvalidName);
        }
        return toggle_generic_rename(fs, root, name, enable, disabled_folder);
    }
    Err(ModError::UnknownStrategy)
}


/// Disabling a mod twice under folder relocation gives the same tree as
/// disabling it once: the second call is a success without work.
pub proof fn lemma_relocate_disable_idempotent(
    m: Map<Seq<Seq<u8>>, NodeV>,
    root: Seq<Seq<u8>>,
    name: Seq<u8>,
    holding: Seq<u8>,
)
    requires
        sp_relocate_err(m, root, name, holding, false) is None,
    ensures
        sp_relocate_err(sp_relocate_map(m, root, name, holding, false), root, name, holding, false)
            is None,
        sp_relocate_map(sp_relocate_map(m, root, name, holding, false), root, name, holding, false)
            == sp_relocate_map(m, root, name, holding, false),
{
    let active = root.push(name);
    let hold_dir = root.push(holding);
    let parked = hold_dir.push(name);
    if !m.dom().contains(active) {
        assert(m.dom().contains(parked));
    } else {
        let m1 = sp_with_dirs(m, hold_dir);
        let m2 = sp_rename(m1, active, parked);
        assert(sp_relocate_map(m, root, name, holding, false) == m2);
        assert(!m2.dom().contains(active)) by {
            assert(sp_starts_with(active, active)) by {
                assert(active.take(active.len() as int) =~= active);
            }
            assert(!sp_starts_with(active, parked));
        }
        assert(m2.dom().contains(parked)) by {
            assert(sp_starts_with(parked, parked)) by {
                assert(parked.take(parked.len() as int) =~= parked);
            }
            assert(active + parked.skip(parked.len() as int) =~= active);
            assert(m1.dom().contains(active));
        }
    }
}

/// A toggle under folder relocation that actually moves the mod folder
/// carries its entire tree: afterwards nothing is left at or below the
/// source location, and the destination location holds exactly the
/// source's former subtree, node for node. The folder is never in both
/// places: one atomic rename is recorded for the move.
pub proof fn lemma_relocate_moves(
    m: Map<Seq<Seq<u8>>, NodeV>,
    root: Seq<Seq<u8>>,
    name: Seq<u8>,
    holding: Seq<u8>,
    enable: bool,
    src: Seq<Seq<u8>>,
    dst: Seq<Seq<u8>>,
)
    requires
        sp_relocate_err(m, root, name, holding, enable) is None,
        src == (if enable {
            root.push(holding).push(name)
        } else {
            root.push(name)
        }),
        dst == (if enable {
            root.push(name)
        } else {
            root.push(holding).push(name)
        }),
        m.dom().contains(src),
    ensures
        ({
            let m2 = sp_relocate_map(m, root, name, holding, enable);
            &&& forall|s: Seq<Seq<u8>>|
                #![trigger m2.dom().contains(dst + s)]
                m2.dom().contains(dst + s) == m.dom().contains(src + s)
            &&& forall|s: Seq<Seq<u8>>|
                #![trigger m2[dst + s]]
                m.dom().contains(src + s) ==> m2[dst + s] == m[src + s]
            &&& forall|q: Seq<Seq<u8>>| sp_starts_with(q, src) ==> !m2.dom().contains(q)
        }),
{
    let active = root.push(name);
    let hold_dir = root.push(holding);
    let parked = hold_dir.push(name);
    let m1 = sp_with_dirs(m, hold_dir);
    let m2 = sp_rename(m1, src, dst);
    assert(sp_relocate_map(m, root, name, holding, enable) == m2);
    assert(sp_rename_ok(m1, src, dst));
    assert(!sp_under(m1, dst));
    assert(m1.dom().contains(src));
    // The source's subtree looks the same before and after the holding
    // directory is made: a source path is never a prefix of it.
    assert forall|s: Seq<Seq<u8>>|
        m1.dom().contains(#[trigger] (src + s)) == m.dom().contains(src + s) && (m.dom().contains(
            src + s,
        ) ==> m1[src + s] == m[src + s]) by {
        if sp_is_nonempty_prefix(src + s, hold_dir) {
            assert((src + s).len() <= hold_dir.len());
            assert(src.len() >= root.len() + 1);
            if !enable {
                // only `root.push(name)` itself could fit, forcing the
                // two leaf names to coincide
                assert(s.len() == 0 && src.len() == hold_dir.len());
                assert(src + s =~= src);
                assert(src == hold_dir.take((src + s).len() as int));
                assert(src =~= hold_dir);
                assert(sp_starts_with(dst, src)) by {
                    assert(dst.take(src.len() as int) =~= src);
                }
            }
        }
    }
    // The move carries every suffix across, with its node.
    assert forall|s: Seq<Seq<u8>>|
        #![trigger m2.dom().contains(dst + s)]
        m2.dom().contains(dst + s) == m.dom().contains(src + s) by {
        lemma_concat_parts(dst, s);
        assert((dst + s).skip(dst.len() as int) == s);
        assert(src + (dst + s).skip(dst.len() as int) == src + s);
    }
    assert forall|s: Seq<Seq<u8>>|
        #![trigger m2[dst + s]]
        m.dom().contains(src + s) implies m2[dst + s] == m[src + s] by {
        lemma_concat_parts(dst, s);
        assert((dst + s).skip(dst.len() as int) == s);
        assert(src + (dst + s).skip(dst.len() as int) == src + s);
    }
    // Nothing stays at or below the source.
    assert forall|q: Seq<Seq<u8>>| sp_starts_with(q, src) implies !m2.dom().contains(q) by {
        if sp_starts_with(q, dst) {
            if src.len() <= dst.len() {
                assert(sp_starts_with(dst, src)) by {
                    assert(dst =~= q.take(dst.len() as int));
                    assert(src =~= q.take(src.len() as int));
                    assert(dst.take(src.len() as int) =~= src);
                }
            } else {
                assert(sp_starts_with(src, dst)) by {
                    assert(dst =~= q.take(dst.len() as int));
                    assert(src =~= q.take(src.len() as int));
                    assert(src.take(dst.len() as int) =~= dst);
                }
                assert(sp_under(m1, dst));
            }
        }
    }
}

/// A relocation changes nothing outside the two mod locations and the
/// holding directory's own chain; when it actually moves, that chain is
/// present afterwards, existing nodes kept and missing ones made
/// directories.
pub proof fn lemma_relocate_frame(
    m: Map<Seq<Seq<u8>>, NodeV>,
    root: Seq<Seq<u8>>,
    name: Seq<u8>,
    holding: Seq<u8>,
    enable: bool,
)
    requires
        sp_relocate_err(m, root, name, holding, enable) is None,
    ensures
        ({
            let active = root.push(name);
            let parked = root.push(holding).push(name);
            let src = if enable {
                parked
            } else {
                active
            };
            let dst = if enable {
                active
            } else {
                parked
            };
            let m2 = sp_relocate_map(m, root, name, holding, enable);
            &&& forall|q: Seq<Seq<u8>>|
                !sp_starts_with(q, src) && !sp_starts_with(q, dst) && !sp_is_nonempty_prefix(
                    q,
                    root.push(holding),
                ) ==> #[trigger] m2.dom().contains(q) == m.dom().contains(q) && (m.dom().contains(
                    q,
                ) ==> m2[q] == m[q])
            &&& m.dom().contains(src) ==> forall|q: Seq<Seq<u8>>|
                sp_is_nonempty_prefix(q, root.push(holding)) ==> #[trigger] m2.dom().contains(q)
                    && m2[q] == (if m.dom().contains(q) {
                    m[q]
                } else {
                    NodeV::Dir
                })
        }),
{
    let active = root.push(name);
    let hold_dir = root.push(holding);
    let parked = hold_dir.push(name);
    let src = if enable {
        parked
    } else {
        active
    };
    let dst = if enable {
        active
    } else {
        parked
    };
    let m2 = sp_relocate_map(m, root, name, holding, enable);
    if !m.dom().contains(src) {
        assert(m2 == m);
    } else {
        let m1 = sp_with_dirs(m, hold_dir);
        assert(m2 == sp_rename(m1, src, dst));
        assert(sp_rename_ok(m1, src, dst));
        // Untouched zone: neither location nor the holding chain.
        assert forall|q: Seq<Seq<u8>>|
            !sp_starts_with(q, src) && !sp_starts_with(q, dst) && !sp_is_nonempty_prefix(
                q,
                hold_dir,
            ) implies #[trigger] m2.dom().contains(q) == m.dom().contains(q) && (m.dom().contains(
                q,
            ) ==> m2[q] == m[q]) by {
            assert(m1.dom().contains(q) == m.dom().contains(q));
            assert(m.dom().contains(q) ==> m1[q] == m[q]);
        }
        // The holding chain survives the rename untouched.
        assert forall|q: Seq<Seq<u8>>|
            sp_is_nonempty_prefix(q, hold_dir) implies #[trigger] m2.dom().contains(q) && m2[q]
                == (if m.dom().contains(q) {
                m[q]
            } else {
                NodeV::Dir
            }) by {
            assert(q.len() <= hold_dir.len());
            assert(!sp_starts_with(q, parked));
            assert(!sp_starts_with(q, dst)) by {
                if sp_starts_with(q, dst) {
                    // only the whole holding directory could fit, which
                    // the occupied-destination check rules out
                    assert(enable && q.len() == active.len());
                    assert(q =~= active);
                    assert(q =~= hold_dir.take(q.len() as int));
                    assert(q =~= hold_dir);
                    assert(m1.dom().contains(hold_dir));
                    assert(sp_starts_with(hold_dir, dst));
                    assert(sp_under(m1, dst));
                }
            }
            assert(!sp_starts_with(q, src)) by {
                if sp_starts_with(q, src) {
                    assert(!enable && q.len() == active.len());
                    assert(q =~= active);
                    assert(q =~= hold_dir.take(q.len() as int));
                    assert(q =~= hold_dir);
                    // then the destination would sit inside the source
                    assert(sp_starts_with(dst, src)) by {
                        assert(dst.take(src.len() as int) =~= src);
                    }
                }
            }
            assert(m1.dom().contains(q));
            assert(m2.dom().contains(q));
        }
    }
}

/// Disabling then enabling a mod folder under extension rewriting
/// restores every renamed file to its original path with its contents
/// unchanged, and touches no other file: the tree ends exactly where it
/// began. The mod folder must hold no file whose name already carries
/// the reversible suffix over the target extension, and the target
/// extension must not itself be the suffix's own name.
pub proof fn lemma_rewrite_round_trip(m: Map<Seq<Seq<u8>>, NodeV>, mp: Seq<Seq<u8>>, ext: Seq<u8>)
    requires
        m.dom().contains(mp) && m[mp] is Dir,
        forall|q: Seq<Seq<u8>>|
            #[trigger] m.dom().contains(q) && sp_starts_with(q, mp) && q.len() > mp.len()
                ==> !sp_name_enables(q.last(), ext),
        ext != bak_ext(),
    ensures
        sp_rewrite_err(m, mp, false, ext) is None,
        sp_rewrite_err(sp_rewrite(m, mp, false, ext), mp, true, ext) is None,
        sp_rewrite(sp_rewrite(m, mp, false, ext), mp, true, ext) == m,
{
    let m2 = sp_rewrite(m, mp, false, ext);
    // The disable pass cannot collide: each renamed file's new name
    // carries the suffix, and the folder holds no such name.
    assert forall|p: Seq<Seq<u8>>| #[trigger] sp_affected(m, mp, false, ext, p) implies !m
        .dom()
        .contains(sp_tx_file(p, false, ext)) by {
        lemma_tx_src(p, false, ext);
        lemma_disable_then_enable(p.last(), ext);
        let t = sp_tx_file(p, false, ext);
        if m.dom().contains(t) {
            lemma_tx_keeps_prefix(p, mp, false, ext);
            assert(sp_name_enables(t.last(), ext));
        }
    }
    assert(sp_rewrite_err(m, mp, false, ext) is None);
    // The folder itself survives the pass unchanged.
    assert(m2.dom().contains(mp) && m2[mp] is Dir) by {
        assert(!sp_affected(m, mp, false, ext, mp));
        assert(!(sp_affected(m, mp, false, ext, sp_src_of(mp, false, ext)) && sp_tx_file(
            sp_src_of(mp, false, ext),
            false,
            ext,
        ) == mp)) by {
            if sp_affected(m, mp, false, ext, sp_src_of(mp, false, ext)) && sp_tx_file(
                sp_src_of(mp, false, ext),
                false,
                ext,
            ) == mp {
                lemma_tx_keeps_prefix(sp_src_of(mp, false, ext), mp, false, ext);
            }
        }
    }
    // A file the enable pass would rename is exactly the image of a
    // file the disable pass renamed.
    assert forall|q: Seq<Seq<u8>>| #[trigger] sp_affected(m2, mp, true, ext, q) implies
        sp_affected(m, mp, false, ext, sp_src_of(q, false, ext)) && sp_tx_file(
        sp_src_of(q, false, ext),
        false,
        ext,
    ) == q by {
        if !(sp_affected(m, mp, false, ext, sp_src_of(q, false, ext)) && sp_tx_file(
            sp_src_of(q, false, ext),
            false,
            ext,
        ) == q) {
            // Then `q` came through unchanged, yet carries the suffix:
            // the folder held no such file.
            assert(m.dom().contains(q) && !sp_affected(m, mp, false, ext, q));
            assert(sp_name_enables(q.last(), ext));
            assert(false);
        }
    }
    // Each image's own rename target is its vacated original path.
    assert forall|q: Seq<Seq<u8>>| #[trigger] sp_affected(m2, mp, true, ext, q) implies
        sp_tx_file(q, true, ext) == sp_src_of(q, false, ext) by {
        let p = sp_src_of(q, false, ext);
        lemma_tx_src(p, false, ext);
        lemma_disable_then_enable(p.last(), ext);
        assert(sp_tx_file(q, true, ext) =~~= p) by {
            assert(q.last() == sp_name_toggled(p.last(), false, ext));
            assert(sp_name_toggled(q.last(), true, ext) == p.last());
            assert(q.len() == p.len());
        }
    }
    // The enable pass cannot collide: the original paths are vacant.
    assert forall|q: Seq<Seq<u8>>| #[trigger] sp_affected(m2, mp, true, ext, q) implies !m2
        .dom()
        .contains(sp_tx_file(q, true, ext)) by {
        let p = sp_src_of(q, false, ext);
        assert(sp_affected(m, mp, false, ext, p));
        assert(sp_tx_file(q, true, ext) == p);
        if m2.dom().contains(p) {
            if sp_affected(m, mp, false, ext, sp_src_of(p, false, ext)) && sp_tx_file(
                sp_src_of(p, false, ext),
                false,
                ext,
            ) == p && p.len() > 0 {
                // Then `p` would itself carry the suffix; but its name
                // has the target extension, which is not the suffix.
                let p2 = sp_src_of(p, false, ext);
                lemma_disable_then_enable(p2.last(), ext);
                assert(sp_tx_file(p2, false, ext).last() == sp_name_toggled(
                    p2.last(),
                    false,
                    ext,
                )) by {
                    lemma_tx_src(p2, false, ext);
                }
                assert(sp_name_enables(p.last(), ext));
                assert(crate::names::spec_ext_of(p.last()) == Option::Some(bak_ext()));
                assert(crate::names::spec_ext_of(p.last()) == Option::Some(ext));
                assert(false);
            } else {
                assert(m.dom().contains(p) && !sp_affected(m, mp, false, ext, p));
                assert(false);
            }
        }
    }
    assert(sp_rewrite_err(m2, mp, true, ext) is None);
    // Undoing the pass restores the original tree exactly.
    let m3 = sp_rewrite(m2, mp, true, ext);
    assert forall|q: Seq<Seq<u8>>| true implies {
        &&& m3.dom().contains(q) == m.dom().contains(q)
        &&& (m.dom().contains(q) ==> m3[q] == m[q])
    } by {
        let qbak = sp_src_of(q, true, ext);
        if m.dom().contains(q) {
            if sp_affected(m, mp, false, ext, q) {
                // `q` was renamed away and is restored by the enable pass.
                let t = sp_tx_file(q, false, ext);
                lemma_tx_src(q, false, ext);
                lemma_disable_then_enable(q.last(), ext);
                lemma_tx_keeps_prefix(q, mp, false, ext);
                assert(m2.dom().contains(t) && m2[t] == m[q]) by {
                    assert(sp_src_of(t, false, ext) == q);
                }
                assert(sp_affected(m2, mp, true, ext, t));
                assert(qbak =~~= t) by {
                    assert(qbak.last() == q.last() + bak_suffix());
                    assert(t.last() == sp_name_toggled(q.last(), false, ext));
                }
                assert(sp_tx_file(t, true, ext) == sp_src_of(t, false, ext));
                assert(sp_tx_file(qbak, true, ext) == q);
                assert(m3.dom().contains(q));
                assert(m3[q] == m2[qbak]);
                assert(m3[q] == m[q]);
            } else {
                // `q` was untouched by both passes.
                assert(m2.dom().contains(q) && !sp_affected(m, mp, false, ext, q));
                assert(m2[q] == m[q]) by {
                    assert(!(sp_affected(m, mp, false, ext, sp_src_of(q, false, ext))
                        && sp_tx_file(sp_src_of(q, false, ext), false, ext) == q)) by {
                        if sp_affected(m, mp, false, ext, sp_src_of(q, false, ext)) && sp_tx_file(
                            sp_src_of(q, false, ext),
                            false,
                            ext,
                        ) == q {
                            assert(!m.dom().contains(q));
                        }
                    }
                }
                assert(!sp_affected(m2, mp, true, ext, q)) by {
                    if sp_affected(m2, mp, true, ext, q) {
                        assert(sp_tx_file(sp_src_of(q, false, ext), false, ext) == q);
                        assert(!m.dom().contains(q));
                    }
                }
                assert(!(sp_affected(m2, mp, true, ext, qbak) && sp_tx_file(qbak, true, ext)
                    == q && q.len() > 0)) by {
                    if sp_affected(m2, mp, true, ext, qbak) && sp_tx_file(qbak, true, ext) == q
                        && q.len() > 0 {
                        let p = sp_src_of(qbak, false, ext);
                        assert(sp_affected(m, mp, false, ext, p) && sp_tx_file(p, false, ext)
                            == qbak);
                        assert(p =~~= q) by {
                            lemma_tx_src(p, false, ext);
                            assert(qbak.last() == q.last() + bak_suffix());
                            assert(p.last() == sp_untx_name(qbak.last(), false, ext));
                            assert(p.last() =~= q.last()) by {
                                assert((q.last() + bak_suffix()).take(q.last().len() as int)
                                    =~= q.last());
                            }
                        }
                        assert(sp_affected(m, mp, false, ext, q));
                        assert(false);
                    }
                }
                assert(m3.dom().contains(q));
                assert(m3[q] == m2[q]);
            }
        }
        if m3.dom().contains(q) && !m.dom().contains(q) {
            if sp_affected(m2, mp, true, ext, qbak) && sp_tx_file(qbak, true, ext) == q
                && q.len() > 0 {
                let p = sp_src_of(qbak, false, ext);
                assert(sp_affected(m, mp, false, ext, p) && sp_tx_file(p, false, ext) == qbak);
                assert(sp_tx_file(qbak, true, ext) == sp_src_of(qbak, false, ext));
                assert(q == p);
                assert(m.dom().contains(q));
                assert(false);
            } else {
                assert(m2.dom().contains(q) && !sp_affected(m2, mp, true, ext, q));
                if sp_affected(m, mp, false, ext, sp_src_of(q, false, ext)) && sp_tx_file(
                    sp_src_of(q, false, ext),
                    false,
                    ext,
                ) == q && q.len() > 0 {
                    // `q` is a disable image, hence enable-affected.
                    let p = sp_src_of(q, false, ext);
                    lemma_tx_src(p, false, ext);
                    lemma_disable_then_enable(p.last(), ext);
                    lemma_tx_keeps_prefix(p, mp, false, ext);
                    assert(m2[q] == m[p]);
                    assert(sp_affected(m2, mp, true, ext, q));
                    assert(false);
                } else {
                    assert(m.dom().contains(q));
                    assert(false);
                }
            }
        }
    }
    assert(m3 =~= m);
}

/// Renaming a file keeps it strictly inside the folder being rewritten.
pub proof fn lemma_tx_keeps_prefix(q: Seq<Seq<u8>>, mp: Seq<Seq<u8>>, enable: bool, ext: Seq<u8>)
    requires
        q.len() > mp.len(),
    ensures
        sp_tx_file(q, enable, ext).len() == q.len(),
        sp_starts_with(q, mp) == sp_starts_with(sp_tx_file(q, enable, ext), mp),
{
    let t = sp_tx_file(q, enable, ext);
    assert(t.len() == q.len());
    assert(t.take(mp.len() as int) =~= q.take(mp.len() as int));
}


/// Disabling a mod twice through the public toggle under folder
/// relocation gives the same tree as disabling it once: the second call
/// is a success without work.
pub proof fn lemma_toggle_disable_idempotent(
    m: Map<Seq<Seq<u8>>, NodeV>,
    root: Seq<Seq<u8>>,
    name: Seq<u8>,
    holding: Seq<u8>,
)
    requires
        sp_toggle_err(m, root, name, false, generic_id(), holding) is None,
    ensures
        sp_toggle_err(
            sp_toggle_map(m, root, name, false, generic_id(), holding),
            root,
            name,
            false,
            generic_id(),
            holding,
        ) is None,
        sp_toggle_map(
            sp_toggle_map(m, root, name, false, generic_id(), holding),
            root,
            name,
            false,
            generic_id(),
            holding,
        ) == sp_toggle_map(m, root, name, false, generic_id(), holding),
{
    assert(generic_id() != ww_id()) by {
        assert(generic_id().len() != ww_id().len());
    }
    lemma_relocate_disable_idempotent(m, root, name, holding);
}

} // verus!
