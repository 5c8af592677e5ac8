//! Archive ingestion: materialising a new mod folder from the entries
//! of a compressed archive.
//!
//! Each entry's stored path is parsed and checked before use: entries
//! whose paths would resolve outside the destination folder are skipped,
//! never extracted. The destination folder must be fresh; an occupied
//! destination is refused, never overwritten.

use vstd::prelude::*;

use crate::fsmodel::{
    ActionV, Fs, NodeV, sp_can_make_dirs, sp_under, sp_with_dirs, sp_write_ok,
};
use crate::names::{DOT, SEP_BACKSLASH, SEP_SLASH, valid_name, valid_name_spec};
use crate::paths::{
    clone_bytes, path_concat, path_join, path_prefix, path_view, sp_is_nonempty_prefix,
    sp_starts_with,
};
use crate::strategy::{ModError, as_result};
use crate::zipio::{
    zip_count, zip_entries, zip_entry, zip_entry_readable, zip_open, zip_parse, zip_readable,
    zip_source_bytes,
};

verus! {

/// One archive entry: its stored path, whether it is a directory entry,
/// and its decompressed bytes. Transient; never persisted.
#[derive(Debug)]
pub struct ArchiveEntry {
    pub rel_path: Vec<u8>,
    pub is_dir: bool,
    pub data: Vec<u8>,
}

/// Specification-level value of one archive entry.
pub struct EntryV {
    pub rel_path: Seq<u8>,
    pub is_dir: bool,
    pub data: Seq<u8>,
}

impl View for ArchiveEntry {
    type V = EntryV;

    open spec fn view(&self) -> EntryV {
        EntryV { rel_path: self.rel_path@, is_dir: self.is_dir, data: self.data@ }
    }
}

/// The byte is a path separator in a stored entry name.
pub open spec fn sp_is_sep(b: u8) -> bool {
    b == SEP_SLASH || b == SEP_BACKSLASH
}

/// Position of the first separator in `n`, or `n.len()` if none.
pub open spec fn sp_first_sep(n: Seq<u8>) -> int
    decreases n.len(),
{
    if n.len() == 0 {
        0
    } else if sp_is_sep(n[0]) {
        0
    } else {
        1 + sp_first_sep(n.skip(1))
    }
}

/// The single component `..`.
pub open spec fn dot_dot() -> Seq<u8> {
    seq![DOT, DOT]
}

/// The single component `.`.
pub open spec fn dot_only() -> Seq<u8> {
    seq![DOT]
}

/// Sanitises a stored entry path, component by component: empty and `.`
/// components are dropped, a `..` component rejects the whole path, and
/// a path with no components left is rejected. `acc` carries the
/// components already accepted. The policy is deliberately stricter
/// than resolving the path first: a parent component is refused even
/// where it would resolve back inside the destination, so acceptance
/// never depends on what the components around it happen to be.
pub open spec fn sp_san(n: Seq<u8>, acc: Seq<Seq<u8>>) -> Option<Seq<Seq<u8>>>
    decreases n.len(),
    via sp_san_decreases
{
    if n.len() == 0 {
        if acc.len() == 0 {
            Option::None
        } else {
            Option::Some(acc)
        }
    } else {
        let k = sp_first_sep(n);
        let c = n.take(k);
        let rest = if k == n.len() {
            Seq::<u8>::empty()
        } else {
            n.skip(k + 1)
        };
        if c == dot_dot() {
            Option::None
        } else if c.len() == 0 || c == dot_only() {
            sp_san(rest, acc)
        } else {
            sp_san(rest, acc.push(c))
        }
    }
}

#[via_fn]
proof fn sp_san_decreases(n: Seq<u8>, acc: Seq<Seq<u8>>) {
    lemma_first_sep(n);
}

/// The safe relative path of a stored entry name, if it has one.
pub open spec fn sp_sanitize(n: Seq<u8>) -> Option<Seq<Seq<u8>>> {
    sp_san(n, Seq::empty())
}

/// `sp_first_sep` stays within the name and points at a separator when
/// it is not the end.
pub proof fn lemma_first_sep(n: Seq<u8>)
    ensures
        0 <= sp_first_sep(n) <= n.len(),
        sp_first_sep(n) < n.len() ==> sp_is_sep(n[sp_first_sep(n)]),
        forall|j: int| 0 <= j < sp_first_sep(n) ==> !sp_is_sep(n[j]),
    decreases n.len(),
{
    if n.len() > 0 && !sp_is_sep(n[0]) {
        lemma_first_sep(n.skip(1));
        assert forall|j: int| 0 <= j < sp_first_sep(n) implies !sp_is_sep(n[j]) by {
            if j > 0 {
                assert(n.skip(1)[j - 1] == n[j]);
            }
        }
        assert(sp_first_sep(n) < n.len() ==> sp_is_sep(n[sp_first_sep(n)])) by {
            if sp_first_sep(n) < n.len() {
                assert(n.skip(1)[sp_first_sep(n) - 1] == n[sp_first_sep(n)]);
            }
        }
    }
}

/// Finds the first separator at or after `pos`.
#[verifier::loop_isolation(false)]
fn find_sep(n: &Vec<u8>, pos: usize) -> (r: usize)
    requires
        pos <= n@.len(),
    ensures
        pos <= r <= n@.len(),
        r - pos == sp_first_sep(n@.skip(pos as int)),
{
    let mut k: usize = pos;
    while k < n.len()
        invariant
            pos <= k <= n@.len(),
            forall|j: int| pos <= j < k ==> !sp_is_sep(n@[j]),
        decreases n@.len() - k,
    {
        if n[k] == SEP_SLASH || n[k] == SEP_BACKSLASH {
            proof {
                lemma_skip_first_sep(n@, pos as int, k as int);
            }
            return k;
        }
        k += 1;
    }
    proof {
        lemma_skip_first_sep_none(n@, pos as int);
    }
    n.len()
}

/// When byte `k` is the first separator at or after `pos`, the suffix's
/// first separator sits at `k - pos`.
pub proof fn lemma_skip_first_sep(n: Seq<u8>, pos: int, k: int)
    requires
        0 <= pos <= k < n.len(),
        sp_is_sep(n[k]),
        forall|j: int| pos <= j < k ==> !sp_is_sep(n[j]),
    ensures
        sp_first_sep(n.skip(pos)) == k - pos,
    decreases k - pos,
{
    if pos == k {
        assert(n.skip(pos)[0] == n[pos]);
    } else {
        assert(n.skip(pos)[0] == n[pos]);
        assert(!sp_is_sep(n.skip(pos)[0]));
        lemma_skip_first_sep(n, pos + 1, k);
        assert(n.skip(pos).skip(1) =~= n.skip(pos + 1));
    }
}

/// When no separator sits at or after `pos`, the suffix has none.
pub proof fn lemma_skip_first_sep_none(n: Seq<u8>, pos: int)
    requires
        0 <= pos <= n.len(),
        forall|j: int| pos <= j < n.len() ==> !sp_is_sep(n[j]),
    ensures
        sp_first_sep(n.skip(pos)) == n.len() - pos,
    decreases n.len() - pos,
{
    if pos < n.len() {
        assert(n.skip(pos)[0] == n[pos]);
        lemma_skip_first_sep_none(n, pos + 1);
        assert(n.skip(pos).skip(1) =~= n.skip(pos + 1));
    }
}

/// Parses and checks a stored entry path: splits it on either separator,
/// drops empty and `.` components, and rejects paths with a `..`
/// component or nothing left, so that the result can never resolve
/// outside the folder it is joined under.
#[verifier::loop_isolation(false)]
pub fn sanitize_entry_name(name: &Vec<u8>) -> (r: Option<Vec<Vec<u8>>>)
    ensures
        match r {
            Some(rel) => sp_sanitize(name@) == Option::Some(path_view(rel)) && path_view(
                rel,
            ).len() > 0,
            None => sp_sanitize(name@) is None,
        },
{
    let mut acc: Vec<Vec<u8>> = Vec::new();
    let mut pos: usize = 0;
    proof {
        assert(name@.skip(0) =~= name@);
        assert(path_view(acc) =~= Seq::<Seq<u8>>::empty());
    }
    while pos < name.len()
        invariant
            0 <= pos <= name@.len(),
            sp_sanitize(name@) == sp_san(name@.skip(pos as int), path_view(acc)),
        decreases name@.len() - pos,
    {
        let k = find_sep(name, pos);
        let mut comp: Vec<u8> = Vec::new();
        let mut j: usize = pos;
        while j < k
            invariant
                pos <= j <= k <= name@.len(),
                comp@.len() == j - pos,
                forall|t: int| 0 <= t < comp@.len() ==> comp@[t] == name@[pos + t],
            decreases k - j,
        {
            comp.push(name[j]);
            j += 1;
        }
        proof {
            assert(comp@ =~= name@.skip(pos as int).take(k - pos as int));
        }
        let is_dot_dot = comp.len() == 2 && comp[0] == DOT && comp[1] == DOT;
        let is_dot = comp.len() == 1 && comp[0] == DOT;
        proof {
            if is_dot_dot {
                assert(comp@ =~= dot_dot());
            }
            if is_dot {
                assert(comp@ =~= dot_only());
            }
            if comp@ == dot_dot() {
                assert(comp@.len() == 2 && comp@[0] == DOT && comp@[1] == DOT);
            }
            if comp@ == dot_only() {
                assert(comp@.len() == 1 && comp@[0] == DOT);
            }
        }
        if is_dot_dot {
            return None;
        }
        let ghost rest = if k - pos == name@.skip(pos as int).len() {
            Seq::<u8>::empty()
        } else {
            name@.skip(pos as int).skip(k - pos as int + 1)
        };
        proof {
            if k < name@.len() {
                assert(name@.skip(pos as int).skip(k - pos as int + 1) =~= name@.skip(
                    k as int + 1,
                ));
            } else {
                assert(k == name@.len());
            }
        }
        if !(comp.len() == 0 || is_dot) {
            let ghost prev_acc = path_view(acc);
            acc.push(comp);
            proof {
                assert(path_view(acc) =~= prev_acc.push(comp@));
            }
        }
        if k == name.len() {
            pos = k;
            proof {
                assert(name@.skip(pos as int) =~= Seq::<u8>::empty());
            }
        } else {
            pos = k + 1;
        }
    }
    proof {
        assert(name@.skip(pos as int).len() == 0 ==> name@.skip(pos as int) =~= Seq::<
            u8,
        >::empty());
    }
    if acc.len() == 0 {
        return None;
    }
    Some(acc)
}

/// A sanitised path is never empty.
pub proof fn lemma_san_some(n: Seq<u8>, acc: Seq<Seq<u8>>)
    requires
        sp_san(n, acc) is Some,
    ensures
        sp_san(n, acc)->Some_0.len() > 0,
        sp_san(n, acc)->Some_0.len() >= acc.len(),
    decreases n.len(),
{
    if n.len() > 0 {
        lemma_first_sep(n);
        let k = sp_first_sep(n);
        let c = n.take(k);
        let rest = if k == n.len() {
            Seq::<u8>::empty()
        } else {
            n.skip(k + 1)
        };
        if c == dot_dot() {
        } else if c.len() == 0 || c == dot_only() {
            lemma_san_some(rest, acc);
        } else {
            lemma_san_some(rest, acc.push(c));
        }
    }
}

/// The progress percentage after `done` of `total` entries.
pub open spec fn sp_percent(done: int, total: int) -> u32 {
    ((done * 100) / total) as u32
}

/// Computes the progress percentage.
fn percent_of(done: usize, total: usize) -> (r: u32)
    requires
        0 < total,
        done <= total,
    ensures
        r == sp_percent(done as int, total as int),
{
    let v: u128 = ((done as u128) * 100) / (total as u128);
    proof {
        vstd::arithmetic::div_mod::lemma_div_is_ordered(
            done as int * 100,
            total as int * 100,
            total as int,
        );
        vstd::arithmetic::div_mod::lemma_div_multiples_vanish(100, total as int);
        assert(done as int * 100 <= total as int * 100) by (nonlinear_arith)
            requires done as int <= total as int;
        assert(v <= 100);
    }
    v as u32
}

/// One archive entry applied to the tree below `dest`: a skipped entry
/// changes nothing and reports no progress; a directory entry makes the
/// directory with its missing parents; a file entry makes its missing
/// parents and then writes its bytes.
pub open spec fn sp_ingest_step(
    m: Map<Seq<Seq<u8>>, NodeV>,
    e: EntryV,
    dest: Seq<Seq<u8>>,
) -> (Map<Seq<Seq<u8>>, NodeV>, Option<ModError>, bool) {
    match sp_sanitize(e.rel_path) {
        Option::None => (m, Option::None, false),
        Option::Some(rel) => {
            let target = dest + rel;
            if e.is_dir {
                if sp_can_make_dirs(m, target) {
                    (sp_with_dirs(m, target), Option::None, true)
                } else {
                    (m, Option::Some(ModError::IoFailure), true)
                }
            } else {
                let parent = target.drop_last();
                if !sp_can_make_dirs(m, parent) {
                    (m, Option::Some(ModError::IoFailure), true)
                } else {
                    let m1 = sp_with_dirs(m, parent);
                    if sp_write_ok(m1, target) {
                        (
                            m1.insert(target, NodeV::File { data: e.data }),
                            Option::None,
                            true,
                        )
                    } else {
                        (m1, Option::Some(ModError::IoFailure), true)
                    }
                }
            }
        },
    }
}

/// The first `k` of `total` entries applied in order below `dest`,
/// stopping at the first failure; the third component is the progress
/// reported so far.
pub open spec fn sp_ingest_upto(
    m1: Map<Seq<Seq<u8>>, NodeV>,
    es: Seq<EntryV>,
    k: int,
    total: int,
    dest: Seq<Seq<u8>>,
) -> (Map<Seq<Seq<u8>>, NodeV>, Option<ModError>, Seq<u32>)
    decreases k,
{
    if k <= 0 {
        (m1, Option::None, Seq::empty())
    } else {
        let prev = sp_ingest_upto(m1, es, k - 1, total, dest);
        if prev.1 is Some {
            prev
        } else {
            let step = sp_ingest_step(prev.0, es[k - 1], dest);
            let prog = if step.2 {
                prev.2.push(sp_percent(k, total))
            } else {
                prev.2
            };
            (step.0, step.1, prog)
        }
    }
}

/// A failure stops the run: later entries change nothing.
pub proof fn lemma_ingest_stuck(
    m1: Map<Seq<Seq<u8>>, NodeV>,
    es: Seq<EntryV>,
    k: int,
    k2: int,
    total: int,
    dest: Seq<Seq<u8>>,
)
    requires
        0 <= k <= k2,
        sp_ingest_upto(m1, es, k, total, dest).1 is Some,
    ensures
        sp_ingest_upto(m1, es, k2, total, dest) == sp_ingest_upto(m1, es, k, total, dest),
    decreases k2 - k,
{
    if k2 > k {
        lemma_ingest_stuck(m1, es, k, k2 - 1, total, dest);
    }
}

/// The disk actions one archive entry records: nothing for a skipped
/// entry, a directory creation for a directory entry, and the parent
/// creation followed by the write for a file entry; a failed action is
/// not recorded.
pub open spec fn sp_ingest_step_log(
    m: Map<Seq<Seq<u8>>, NodeV>,
    e: EntryV,
    dest: Seq<Seq<u8>>,
) -> Seq<ActionV> {
    match sp_sanitize(e.rel_path) {
        Option::None => Seq::empty(),
        Option::Some(rel) => {
            let target = dest + rel;
            if e.is_dir {
                if sp_can_make_dirs(m, target) {
                    seq![ActionV::CreateDirAll { path: target }]
                } else {
                    Seq::empty()
                }
            } else {
                let parent = target.drop_last();
                if !sp_can_make_dirs(m, parent) {
                    Seq::empty()
                } else {
                    let made = seq![ActionV::CreateDirAll { path: parent }];
                    if sp_write_ok(sp_with_dirs(m, parent), target) {
                        made.push(ActionV::WriteFile { path: target, data: e.data })
                    } else {
                        made
                    }
                }
            }
        },
    }
}

/// The disk actions the first `k` entries record.
pub open spec fn sp_ingest_upto_log(
    m1: Map<Seq<Seq<u8>>, NodeV>,
    es: Seq<EntryV>,
    k: int,
    total: int,
    dest: Seq<Seq<u8>>,
) -> Seq<ActionV>
    decreases k,
{
    if k <= 0 {
        Seq::empty()
    } else {
        let prev = sp_ingest_upto(m1, es, k - 1, total, dest);
        let prevlog = sp_ingest_upto_log(m1, es, k - 1, total, dest);
        if prev.1 is Some {
            prevlog
        } else {
            prevlog + sp_ingest_step_log(prev.0, es[k - 1], dest)
        }
    }
}

/// A failure stops the run: later entries record nothing.
pub proof fn lemma_ingest_log_stuck(
    m1: Map<Seq<Seq<u8>>, NodeV>,
    es: Seq<EntryV>,
    k: int,
    k2: int,
    total: int,
    dest: Seq<Seq<u8>>,
)
    requires
        0 <= k <= k2,
        sp_ingest_upto(m1, es, k, total, dest).1 is Some,
    ensures
        sp_ingest_upto_log(m1, es, k2, total, dest) == sp_ingest_upto_log(m1, es, k, total, dest),
    decreases k2 - k,
{
    if k2 > k {
        lemma_ingest_log_stuck(m1, es, k, k2 - 1, total, dest);
        lemma_ingest_stuck(m1, es, k, k2 - 1, total, dest);
    }
}

/// The disk actions a whole ingest records, in replay order: the
/// destination folder's creation, then each entry's actions.
pub open spec fn sp_ingest_log(
    m: Map<Seq<Seq<u8>>, NodeV>,
    dest_root: Seq<Seq<u8>>,
    dest_name: Seq<u8>,
    es: Seq<EntryV>,
) -> Seq<ActionV> {
    let dest = dest_root.push(dest_name);
    if !valid_name_spec(dest_name) {
        Seq::empty()
    } else if sp_under(m, dest) {
        Seq::empty()
    } else if !sp_can_make_dirs(m, dest) {
        Seq::empty()
    } else {
        seq![ActionV::CreateDirAll { path: dest }] + sp_ingest_upto_log(
            sp_with_dirs(m, dest),
            es,
            es.len() as int,
            es.len() as int,
            dest,
        )
    }
}

/// The views of a list of archive entries.
pub open spec fn entry_views(es: Seq<ArchiveEntry>) -> Seq<EntryV> {
    Seq::new(es.len(), |i: int| es[i]@)
}

/// The whole ingest below `dest_root/dest_name`: the destination leaf
/// name must be valid and the destination free; the destination folder
/// is created first, then the entries stream in.
pub open spec fn sp_ingest_res(
    m: Map<Seq<Seq<u8>>, NodeV>,
    dest_root: Seq<Seq<u8>>,
    dest_name: Seq<u8>,
    es: Seq<EntryV>,
) -> (Map<Seq<Seq<u8>>, NodeV>, Option<ModError>, Seq<u32>) {
    let dest = dest_root.push(dest_name);
    if !valid_name_spec(dest_name) {
        (m, Option::Some(ModError::InvalidName), Seq::empty())
    } else if sp_under(m, dest) {
        (m, Option::Some(ModError::AlreadyExists), Seq::empty())
    } else if !sp_can_make_dirs(m, dest) {
        (m, Option::Some(ModError::IoFailure), Seq::empty())
    } else {
        sp_ingest_upto(sp_with_dirs(m, dest), es, es.len() as int, es.len() as int, dest)
    }
}

/// Streams a list of archive entries into the fresh folder
/// `dest_root/dest_name`, reporting an integer percentage after each
/// entry that is not skipped. An occupied destination is refused and
/// left untouched; a failure partway leaves the entries already written.
#[verifier::loop_isolation(false)]
pub fn ingest_entries(
    fs: &mut Fs,
    dest_root: &Vec<Vec<u8>>,
    dest_name: &Vec<u8>,
    entries: &Vec<ArchiveEntry>,
) -> (r: (Result<(), ModError>, Vec<u32>))
    requires
        old(fs).wf(),
    ensures
        final(fs).wf(),
        final(fs)@ == sp_ingest_res(
            old(fs)@,
            path_view(*dest_root),
            dest_name@,
            entry_views(entries@),
        ).0,
        r.0 == as_result(
            sp_ingest_res(old(fs)@, path_view(*dest_root), dest_name@, entry_views(entries@)).1,
        ),
        r.1@ == sp_ingest_res(
            old(fs)@,
            path_view(*dest_root),
            dest_name@,
            entry_views(entries@),
        ).2,
        final(fs).log_view() == old(fs).log_view() + sp_ingest_log(
            old(fs)@,
            path_view(*dest_root),
            dest_name@,
            entry_views(entries@),
        ),
        old(fs).log_view().is_prefix_of(final(fs).log_view()),
{
    let mut progress: Vec<u32> = Vec::new();
    proof {
        assert(old(fs).log_view() + Seq::<ActionV>::empty() =~= old(fs).log_view());
        assert(old(fs).log_view().is_prefix_of(old(fs).log_view()));
        assert(progress@ =~= Seq::<u32>::empty());
    }
    if !valid_name(dest_name) {
        return (Err(ModError::InvalidName), progress);
    }
    let dest = path_join(dest_root, dest_name);
    if fs.exists_under(&dest) {
        return (Err(ModError::AlreadyExists), progress);
    }
    match fs.create_dir_all(&dest) {
        Err(_) => {
            return (Err(ModError::IoFailure), progress);
        },
        Ok(_) => {},
    }
    let ghost m1 = fs@;
    let ghost dv = path_view(dest);
    let ghost evs = entry_views(entries@);
    let ghost log1 = fs.log_view();
    proof {
        assert(log1 =~= old(fs).log_view() + seq![ActionV::CreateDirAll { path: dv }]);
        assert(fs.log_view() =~= log1 + sp_ingest_upto_log(
            m1,
            evs,
            0,
            entries@.len() as int,
            dv,
        ));
    }
    let total = entries.len();
    let mut i: usize = 0;
    while i < total
        invariant
            0 <= i <= total,
            total == evs.len(),
            fs.wf(),
            sp_ingest_upto(m1, evs, i as int, total as int, dv).0 == fs@,
            sp_ingest_upto(m1, evs, i as int, total as int, dv).1 is None,
            sp_ingest_upto(m1, evs, i as int, total as int, dv).2 == progress@,
            fs.log_view() == log1 + sp_ingest_upto_log(m1, evs, i as int, total as int, dv),
        decreases total - i,
    {
        let ghost prev = sp_ingest_upto(m1, evs, i as int, total as int, dv);
        let ghost loop_log = fs.log_view();
        proof {
            assert(evs[i as int] == entries@[i as int]@);
        }
        match sanitize_entry_name(&entries[i].rel_path) {
            None => {
                proof {
                    assert(sp_ingest_step(prev.0, evs[i as int], dv) == (
                        fs@,
                        Option::<ModError>::None,
                        false,
                    ));
                    assert(sp_ingest_upto_log(m1, evs, i + 1, total as int, dv)
                        =~= sp_ingest_upto_log(m1, evs, i as int, total as int, dv));
                }
            },
            Some(rel) => {
                proof {
                    lemma_san_some(entries@[i as int].rel_path@, Seq::empty());
                }
                let pct = percent_of(i + 1, total);
                progress.push(pct);
                let target = path_concat(&dest, &rel);
                if entries[i].is_dir {
                    match fs.create_dir_all(&target) {
                        Err(_) => {
                            proof {
                                lemma_ingest_stuck(
                                    m1,
                                    evs,
                                    i + 1,
                                    total as int,
                                    total as int,
                                    dv,
                                );
                                lemma_ingest_log_stuck(
                                    m1,
                                    evs,
                                    i + 1,
                                    total as int,
                                    total as int,
                                    dv,
                                );
                                assert(fs.log_view() =~= log1 + sp_ingest_upto_log(
                                    m1,
                                    evs,
                                    i + 1,
                                    total as int,
                                    dv,
                                ));
                            }
                            return (Err(ModError::IoFailure), progress);
                        },
                        Ok(_) => {
                            proof {
                                assert(fs.log_view() =~= log1 + sp_ingest_upto_log(
                                    m1,
                                    evs,
                                    i + 1,
                                    total as int,
                                    dv,
                                ));
                            }
                        },
                    }
                } else {
                    proof {
                        assert(target@.len() == path_view(target).len());
                        assert(path_view(target).len() > dv.len());
                    }
                    let parent = path_prefix(&target, target.len() - 1);
                    proof {
                        assert(path_view(parent) =~= path_view(target).drop_last());
                    }
                    match fs.create_dir_all(&parent) {
                        Err(_) => {
                            proof {
                                lemma_ingest_stuck(
                                    m1,
                                    evs,
                                    i + 1,
                                    total as int,
                                    total as int,
                                    dv,
                                );
                                lemma_ingest_log_stuck(
                                    m1,
                                    evs,
                                    i + 1,
                                    total as int,
                                    total as int,
                                    dv,
                                );
                                assert(fs.log_view() =~= log1 + sp_ingest_upto_log(
                                    m1,
                                    evs,
                                    i + 1,
                                    total as int,
                                    dv,
                                ));
                            }
                            return (Err(ModError::IoFailure), progress);
                        },
                        Ok(_) => {},
                    }
                    let data = clone_bytes(&entries[i].data);
                    let ghost mid_log = fs.log_view();
                    proof {
                        assert(mid_log =~= loop_log + seq![
                            ActionV::CreateDirAll { path: path_view(parent) },
                        ]);
                    }
                    match fs.write_file(&target, data) {
                        Err(_) => {
                            proof {
                                lemma_ingest_stuck(
                                    m1,
                                    evs,
                                    i + 1,
                                    total as int,
                                    total as int,
                                    dv,
                                );
                                lemma_ingest_log_stuck(
                                    m1,
                                    evs,
                                    i + 1,
                                    total as int,
                                    total as int,
                                    dv,
                                );
                                assert(fs.log_view() =~= log1 + sp_ingest_upto_log(
                                    m1,
                                    evs,
                                    i + 1,
                                    total as int,
                                    dv,
                                ));
                            }
                            return (Err(ModError::IoFailure), progress);
                        },
                        Ok(_) => {
                            proof {
                                assert(fs.log_view() =~= mid_log.push(
                                    ActionV::WriteFile {
                                        path: path_view(target),
                                        data: entries@[i as int].data@,
                                    },
                                ));
                                assert(fs.log_view() =~= log1 + sp_ingest_upto_log(
                                    m1,
                                    evs,
                                    i + 1,
                                    total as int,
                                    dv,
                                ));
                            }
                        },
                    }
                }
            },
        }
        i += 1;
    }
    (Ok(()), progress)
}

/// Prefix order on logs is transitive.
pub proof fn lemma_prefix_chain(a: Seq<ActionV>, b: Seq<ActionV>, c: Seq<ActionV>)
    requires
        a.is_prefix_of(b),
        b.is_prefix_of(c),
    ensures
        a.is_prefix_of(c),
{
    assert(c.take(a.len() as int) =~= b.take(a.len() as int));
}

/// The entries a raw archive listing yields: a stored name ending in a
/// separator marks a directory entry.
pub open spec fn entries_of_raw(raw: Seq<(Seq<u8>, Seq<u8>)>) -> Seq<EntryV> {
    Seq::new(
        raw.len(),
        |i: int| EntryV {
            rel_path: raw[i].0,
            is_dir: raw[i].0.len() > 0 && raw[i].0.last() == SEP_SLASH,
            data: raw[i].1,
        },
    )
}

/// Reads a whole archive from its bytes and streams its entries into
/// the fresh folder `dest_root/dest_name`. The archive is reported as
/// unreadable exactly when its bytes do not open or one of its entries
/// does not read; that failure changes nothing.
#[verifier::loop_isolation(false)]
pub fn extract_archive(
    fs: &mut Fs,
    archive_bytes: Vec<u8>,
    dest_root: &Vec<Vec<u8>>,
    dest_name: &Vec<u8>,
) -> (r: (Result<(), ModError>, Vec<u32>))
    requires
        old(fs).wf(),
    ensures
        final(fs).wf(),
        old(fs).log_view().is_prefix_of(final(fs).log_view()),
        (r.0 == Result::<(), ModError>::Err(ModError::ArchiveCorrupt)) == !zip_readable(
            archive_bytes@,
        ),
        r.0 == Result::<(), ModError>::Err(ModError::ArchiveCorrupt) ==> final(fs)@ == old(fs)@
            && final(fs).log_view() == old(fs).log_view() && r.1@ == Seq::<u32>::empty(),
        r.0 != Result::<(), ModError>::Err(ModError::ArchiveCorrupt) ==> {
            &&& final(fs)@ == sp_ingest_res(
                old(fs)@,
                path_view(*dest_root),
                dest_name@,
                entries_of_raw(zip_parse(archive_bytes@)),
            ).0
            &&& r.0 == as_result(
                sp_ingest_res(
                    old(fs)@,
                    path_view(*dest_root),
                    dest_name@,
                    entries_of_raw(zip_parse(archive_bytes@)),
                ).1,
            )
            &&& r.1@ == sp_ingest_res(
                old(fs)@,
                path_view(*dest_root),
                dest_name@,
                entries_of_raw(zip_parse(archive_bytes@)),
            ).2
            &&& final(fs).log_view() == old(fs).log_view() + sp_ingest_log(
                old(fs)@,
                path_view(*dest_root),
                dest_name@,
                entries_of_raw(zip_parse(archive_bytes@)),
            )
        },
{
    let ghost bv = archive_bytes@;
    let ghost raw = zip_parse(archive_bytes@);
    proof {
        assert(old(fs).log_view().is_prefix_of(old(fs).log_view()));
    }
    let mut arch = match zip_open(archive_bytes) {
        Ok(a) => a,
        Err(_) => {
            return (Err(ModError::ArchiveCorrupt), Vec::new());
        },
    };
    let total = zip_count(&arch);
    let mut items: Vec<ArchiveEntry> = Vec::new();
    proof {
        assert(entry_views(items@) =~= entries_of_raw(raw).take(0));
    }
    let mut i: usize = 0;
    while i < total
        invariant
            0 <= i <= total,
            total == zip_entries(arch).len(),
            zip_entries(arch) == raw,
            zip_source_bytes(arch) == bv,
            items@.len() == i,
            entry_views(items@) == entries_of_raw(raw).take(i as int),
            forall|j: int| 0 <= j < i ==> #[trigger] zip_entry_readable(bv, j),
        decreases total - i,
    {
        match zip_entry(&mut arch, i) {
            Err(_) => {
                proof {
                    assert(!zip_entry_readable(bv, i as int));
                    assert(!zip_readable(bv));
                }
                return (Err(ModError::ArchiveCorrupt), Vec::new());
            },
            Ok(pair) => {
                let (nm, data) = pair;
                let is_dir = nm.len() > 0 && nm[nm.len() - 1] == SEP_SLASH;
                let ghost prev_items = items@;
                items.push(ArchiveEntry { rel_path: nm, is_dir, data });
                proof {
                    assert(raw[i as int].0.len() > 0 ==> raw[i as int].0.last() == raw[
                        i as int
                    ].0[raw[i as int].0.len() - 1]);
                    assert(entry_views(items@) =~= entries_of_raw(raw).take(i + 1));
                }
            },
        }
        i += 1;
    }
    proof {
        assert(entry_views(items@) =~= entries_of_raw(raw));
        assert(zip_readable(bv));
        lemma_ingest_err_not_corrupt(
            fs@,
            path_view(*dest_root),
            dest_name@,
            entries_of_raw(raw),
        );
    }
    ingest_entries(fs, dest_root, dest_name, &items)
}

/// An ingest never reports a corrupt archive: its entries are already
/// decoded when it runs.
proof fn lemma_ingest_err_not_corrupt(
    m: Map<Seq<Seq<u8>>, NodeV>,
    dest_root: Seq<Seq<u8>>,
    dest_name: Seq<u8>,
    es: Seq<EntryV>,
)
    ensures
        sp_ingest_res(m, dest_root, dest_name, es).1 != Option::Some(ModError::ArchiveCorrupt),
{
    let dest = dest_root.push(dest_name);
    if valid_name_spec(dest_name) && !sp_under(m, dest) && sp_can_make_dirs(m, dest) {
        lemma_upto_err_not_corrupt(sp_with_dirs(m, dest), es, es.len() as int, es.len() as int, dest);
    }
}

/// The fold's only failure is an io failure.
proof fn lemma_upto_err_not_corrupt(
    m1: Map<Seq<Seq<u8>>, NodeV>,
    es: Seq<EntryV>,
    k: int,
    total: int,
    dest: Seq<Seq<u8>>,
)
    ensures
        sp_ingest_upto(m1, es, k, total, dest).1 != Option::Some(ModError::ArchiveCorrupt),
    decreases k,
{
    if k > 0 {
        lemma_upto_err_not_corrupt(m1, es, k - 1, total, dest);
    }
}

/// Every nonempty prefix of `dest` is present in `m`.
pub open spec fn sp_chain_present(m: Map<Seq<Seq<u8>>, NodeV>, dest: Seq<Seq<u8>>) -> bool {
    forall|k: int| 0 < k <= dest.len() ==> #[trigger] m.dom().contains(dest.take(k))
}

/// One ingest step touches nothing outside the destination subtree.
proof fn lemma_step_confined(m: Map<Seq<Seq<u8>>, NodeV>, e: EntryV, dest: Seq<Seq<u8>>)
    requires
        dest.len() > 0,
        sp_chain_present(m, dest),
    ensures
        sp_chain_present(sp_ingest_step(m, e, dest).0, dest),
        forall|q: Seq<Seq<u8>>|
            !sp_starts_with(q, dest) ==> #[trigger] sp_ingest_step(m, e, dest).0.dom().contains(q)
                == m.dom().contains(q) && (m.dom().contains(q) ==> sp_ingest_step(
                m,
                e,
                dest,
            ).0[q] == m[q]),
{
    let m2 = sp_ingest_step(m, e, dest).0;
    if sp_sanitize(e.rel_path) is Some {
        let rel = sp_sanitize(e.rel_path)->Some_0;
        lemma_san_some(e.rel_path, Seq::empty());
        let target = dest + rel;
        crate::paths::lemma_concat_parts(dest, rel);
        assert(sp_starts_with(target, dest));
        assert(target.len() > dest.len());
        let base = if e.is_dir {
            target
        } else {
            target.drop_last()
        };
        assert(sp_starts_with(base, dest)) by {
            if !e.is_dir {
                assert(base =~= target.take(target.len() - 1));
                assert(base.take(dest.len() as int) =~= target.take(dest.len() as int));
            }
        }
        // Prefixes of the touched path either stay inside the subtree or
        // already existed as part of the destination chain.
        assert forall|q: Seq<Seq<u8>>|
            sp_is_nonempty_prefix(q, base) && !sp_starts_with(q, dest) implies m.dom().contains(
            q,
        ) by {
            assert(q == base.take(q.len() as int));
            if q.len() > dest.len() {
                assert(q.take(dest.len() as int) =~= base.take(dest.len() as int));
                assert(sp_starts_with(q, dest));
            } else {
                assert(q =~= dest.take(q.len() as int));
            }
        }
        assert forall|q: Seq<Seq<u8>>| !sp_starts_with(q, dest) implies #[trigger] m2
            .dom()
            .contains(q) == m.dom().contains(q) && (m.dom().contains(q) ==> m2[q] == m[q]) by {
            if !e.is_dir {
                assert(target != q) by {
                    assert(sp_starts_with(target, dest));
                }
            }
        }
        assert(sp_chain_present(m2, dest)) by {
            assert forall|k: int| 0 < k <= dest.len() implies #[trigger] m2.dom().contains(
                dest.take(k),
            ) by {
                assert(m.dom().contains(dest.take(k)));
                if !e.is_dir {
                    assert(m2 == sp_ingest_step(m, e, dest).0);
                }
            }
        }
    }
}

/// Nothing at all is created or modified outside the destination folder
/// and its ancestor chain by an ingest run: a path that does not lie at
/// or below the destination and is not one of its ancestors keeps
/// exactly its old presence and node.
pub proof fn lemma_ingest_confined(
    m: Map<Seq<Seq<u8>>, NodeV>,
    dest_root: Seq<Seq<u8>>,
    dest_name: Seq<u8>,
    es: Seq<EntryV>,
)
    ensures
        forall|q: Seq<Seq<u8>>|
            !sp_starts_with(q, dest_root.push(dest_name)) && !sp_is_nonempty_prefix(
                q,
                dest_root.push(dest_name),
            ) ==> #[trigger] sp_ingest_res(m, dest_root, dest_name, es).0.dom().contains(q)
                == m.dom().contains(q) && (m.dom().contains(q) ==> sp_ingest_res(
                m,
                dest_root,
                dest_name,
                es,
            ).0[q] == m[q]),
{
    let dest = dest_root.push(dest_name);
    if valid_name_spec(dest_name) && !sp_under(m, dest) && sp_can_make_dirs(m, dest) {
        let m1 = sp_with_dirs(m, dest);
        assert(sp_chain_present(m1, dest)) by {
            assert forall|k: int| 0 < k <= dest.len() implies #[trigger] m1.dom().contains(
                dest.take(k),
            ) by {
                assert(sp_is_nonempty_prefix(dest.take(k), dest)) by {
                    assert(dest.take(k) =~= dest.take(dest.take(k).len() as int));
                }
            }
        }
        lemma_upto_confined(m1, es, es.len() as int, es.len() as int, dest);
        assert forall|q: Seq<Seq<u8>>|
            !sp_starts_with(q, dest) && !sp_is_nonempty_prefix(q, dest) implies #[trigger]
            sp_ingest_res(m, dest_root, dest_name, es).0.dom().contains(q) == m.dom().contains(
            q,
        ) && (m.dom().contains(q) ==> sp_ingest_res(m, dest_root, dest_name, es).0[q] == m[q]) by {
            assert(m1.dom().contains(q) == m.dom().contains(q));
            assert(m.dom().contains(q) ==> m1[q] == m[q]);
        }
    }
}

/// The fold over the entries touches nothing outside the subtree.
proof fn lemma_upto_confined(
    m1: Map<Seq<Seq<u8>>, NodeV>,
    es: Seq<EntryV>,
    k: int,
    total: int,
    dest: Seq<Seq<u8>>,
)
    requires
        dest.len() > 0,
        sp_chain_present(m1, dest),
    ensures
        sp_chain_present(sp_ingest_upto(m1, es, k, total, dest).0, dest),
        forall|q: Seq<Seq<u8>>|
            !sp_starts_with(q, dest) ==> #[trigger] sp_ingest_upto(
                m1,
                es,
                k,
                total,
                dest,
            ).0.dom().contains(q) == m1.dom().contains(q) && (m1.dom().contains(q)
                ==> sp_ingest_upto(m1, es, k, total, dest).0[q] == m1[q]),
    decreases k,
{
    if k > 0 {
        lemma_upto_confined(m1, es, k - 1, total, dest);
        let prev = sp_ingest_upto(m1, es, k - 1, total, dest);
        if prev.1 is None {
            lemma_step_confined(prev.0, es[k - 1], dest);
        }
    }
}


/// An occupied destination fails an ingest with the collision error and
/// leaves the whole tree, the occupant included, untouched.
pub proof fn lemma_ingest_no_overwrite(
    m: Map<Seq<Seq<u8>>, NodeV>,
    dest_root: Seq<Seq<u8>>,
    dest_name: Seq<u8>,
    es: Seq<EntryV>,
)
    requires
        valid_name_spec(dest_name),
        sp_under(m, dest_root.push(dest_name)),
    ensures
        sp_ingest_res(m, dest_root, dest_name, es).1 == Option::Some(ModError::AlreadyExists),
        sp_ingest_res(m, dest_root, dest_name, es).0 == m,
        sp_ingest_res(m, dest_root, dest_name, es).2 == Seq::<u32>::empty(),
{
}


/// A successful run of the ingest fold materialises every entry that is
/// not skipped: after it, the entry's safe relative path below the
/// destination holds a directory for a directory entry, and the entry's
/// bytes for a file entry that no later entry writes again.
pub proof fn lemma_ingest_upto_carries(
    m1: Map<Seq<Seq<u8>>, NodeV>,
    es: Seq<EntryV>,
    k: int,
    j: int,
    total: int,
    dest: Seq<Seq<u8>>,
)
    requires
        0 <= j < k <= es.len(),
        sp_ingest_upto(m1, es, k, total, dest).1 is None,
        sp_sanitize(es[j].rel_path) is Some,
        !es[j].is_dir ==> forall|t: int|
            j < t < k ==> (#[trigger] sp_sanitize(es[t].rel_path) matches Option::Some(r) ==> r
                != sp_sanitize(es[j].rel_path)->Some_0),
    ensures
        ({
            let target = dest + sp_sanitize(es[j].rel_path)->Some_0;
            let mk = sp_ingest_upto(m1, es, k, total, dest).0;
            &&& mk.dom().contains(target)
            &&& es[j].is_dir ==> mk[target] is Dir
            &&& !es[j].is_dir ==> mk[target] == (NodeV::File { data: es[j].data })
        }),
    decreases k,
{
    let prev = sp_ingest_upto(m1, es, k - 1, total, dest);
    assert(prev.1 is None);
    let rel_j = sp_sanitize(es[j].rel_path)->Some_0;
    let target_j = dest + rel_j;
    let step = sp_ingest_step(prev.0, es[k - 1], dest);
    if j == k - 1 {
        if es[j].is_dir {
            assert(sp_can_make_dirs(prev.0, target_j));
            assert(crate::paths::sp_is_nonempty_prefix(target_j, target_j)) by {
                lemma_san_some(es[j].rel_path, Seq::empty());
                assert(target_j =~= target_j.take(target_j.len() as int));
            }
            assert(step.0.dom().contains(target_j));
            assert(step.0[target_j] is Dir) by {
                if prev.0.dom().contains(target_j) {
                    assert(target_j =~= target_j.take(target_j.len() as int));
                    assert(prev.0.dom().contains(target_j.take(target_j.len() as int)));
                }
            }
        } else {
            assert(step.0 == sp_with_dirs(prev.0, target_j.drop_last()).insert(
                target_j,
                NodeV::File { data: es[j].data },
            ));
        }
    } else {
        lemma_ingest_upto_carries(m1, es, k - 1, j, total, dest);
        assert(prev.0.dom().contains(target_j));
        match sp_sanitize(es[k - 1].rel_path) {
            Option::None => {
                assert(step == (prev.0, Option::<ModError>::None, false));
            },
            Option::Some(rel_t) => {
                let target_t = dest + rel_t;
                if es[k - 1].is_dir {
                    // Making a directory never alters what exists.
                    assert(step.0.dom().contains(target_j));
                    assert(step.0[target_j] == prev.0[target_j]);
                } else {
                    // A later write lands elsewhere: for a directory the
                    // write check would have failed, for a file the
                    // hypothesis rules the same path out.
                    assert(target_t != target_j) by {
                        if target_t == target_j {
                            crate::paths::lemma_concat_parts(dest, rel_t);
                            crate::paths::lemma_concat_parts(dest, rel_j);
                            assert(rel_t == rel_j);
                            if es[j].is_dir {
                                assert(prev.0[target_j] is Dir);
                                assert(!sp_write_ok(
                                    sp_with_dirs(prev.0, target_t.drop_last()),
                                    target_t,
                                ));
                                assert(step.1 is Some);
                            }
                        }
                    }
                    assert(step.0.dom().contains(target_j));
                    assert(step.0[target_j] == prev.0[target_j]);
                }
            },
        }
    }
}

/// A successful ingest materialises every entry that is not skipped at
/// its safe relative path below the destination: a directory entry as a
/// directory, and a file entry that no later entry writes again with
/// exactly its bytes.
pub proof fn lemma_ingest_materialises(
    m: Map<Seq<Seq<u8>>, NodeV>,
    dest_root: Seq<Seq<u8>>,
    dest_name: Seq<u8>,
    es: Seq<EntryV>,
    j: int,
)
    requires
        sp_ingest_res(m, dest_root, dest_name, es).1 is None,
        0 <= j < es.len(),
        sp_sanitize(es[j].rel_path) is Some,
        !es[j].is_dir ==> forall|t: int|
            j < t < es.len() ==> (#[trigger] sp_sanitize(es[t].rel_path) matches Option::Some(r)
                ==> r != sp_sanitize(es[j].rel_path)->Some_0),
    ensures
        ({
            let target = dest_root.push(dest_name) + sp_sanitize(es[j].rel_path)->Some_0;
            let m2 = sp_ingest_res(m, dest_root, dest_name, es).0;
            &&& m2.dom().contains(target)
            &&& es[j].is_dir ==> m2[target] is Dir
            &&& !es[j].is_dir ==> m2[target] == (NodeV::File { data: es[j].data })
        }),
{
    let dest = dest_root.push(dest_name);
    lemma_ingest_upto_carries(
        sp_with_dirs(m, dest),
        es,
        es.len() as int,
        j,
        es.len() as int,
        dest,
    );
}

} // verus!
