//! Bulk operations: applying a toggle or a deletion to every mod in a
//! list, collecting one failure entry per failing mod and never letting
//! one mod's failure stop the rest.

use vstd::prelude::*;

use crate::fsmodel::{ActionV, Fs, NodeV};
use crate::ops::{delete_mod, sp_delete_err, sp_delete_map};
use crate::paths::{clone_bytes, path_view};
use crate::strategy::{ModError, sp_toggle_err, sp_toggle_map, toggle_mod};

verus! {

/// The tree after toggling every named mod in order.
pub open spec fn sp_bulk_toggle_map(
    m: Map<Seq<Seq<u8>>, NodeV>,
    root: Seq<Seq<u8>>,
    names: Seq<Seq<u8>>,
    enable: bool,
    strat: Seq<u8>,
    holding: Seq<u8>,
) -> Map<Seq<Seq<u8>>, NodeV>
    decreases names.len(),
{
    if names.len() == 0 {
        m
    } else {
        sp_bulk_toggle_map(
            sp_toggle_map(m, root, names[0], enable, strat, holding),
            root,
            names.skip(1),
            enable,
            strat,
            holding,
        )
    }
}

/// The failures of toggling every named mod in order: one entry per
/// failing mod, tagged with its name, successes unreported.
pub open spec fn sp_bulk_toggle_errs(
    m: Map<Seq<Seq<u8>>, NodeV>,
    root: Seq<Seq<u8>>,
    names: Seq<Seq<u8>>,
    enable: bool,
    strat: Seq<u8>,
    holding: Seq<u8>,
) -> Seq<(Seq<u8>, ModError)>
    decreases names.len(),
{
    if names.len() == 0 {
        Seq::empty()
    } else {
        let e = sp_toggle_err(m, root, names[0], enable, strat, holding);
        let m2 = sp_toggle_map(m, root, names[0], enable, strat, holding);
        let rest = sp_bulk_toggle_errs(m2, root, names.skip(1), enable, strat, holding);
        match e {
            Option::Some(err) => seq![(names[0], err)] + rest,
            Option::None => rest,
        }
    }
}

/// The reported failures as specification values.
pub open spec fn err_views(r: Seq<(Vec<u8>, ModError)>) -> Seq<(Seq<u8>, ModError)> {
    Seq::new(r.len(), |i: int| (r[i].0@, r[i].1))
}

/// Toggles every mod in `mod_names` in order, never stopping at a
/// failure, and returns one entry per failing mod with its name and
/// cause.
#[verifier::loop_isolation(false)]
pub fn toggle_mods_bulk(
    fs: &mut Fs,
    root: &Vec<Vec<u8>>,
    mod_names: &Vec<Vec<u8>>,
    enable: bool,
    strategy: &Vec<u8>,
    disabled_folder: &Vec<u8>,
) -> (r: Vec<(Vec<u8>, ModError)>)
    requires
        old(fs).wf(),
    ensures
        final(fs).wf(),
        final(fs)@ == sp_bulk_toggle_map(
            old(fs)@,
            path_view(*root),
            path_view(*mod_names),
            enable,
            strategy@,
            disabled_folder@,
        ),
        err_views(r@) == sp_bulk_toggle_errs(
            old(fs)@,
            path_view(*root),
            path_view(*mod_names),
            enable,
            strategy@,
            disabled_folder@,
        ),
        old(fs).log_view().is_prefix_of(final(fs).log_view()),
{
    let ghost m0 = fs@;
    let ghost rv = path_view(*root);
    let ghost nv = path_view(*mod_names);
    let mut errors: Vec<(Vec<u8>, ModError)> = Vec::new();
    proof {
        assert(nv.skip(0) =~= nv);
        assert(err_views(errors@) =~= Seq::<(Seq<u8>, ModError)>::empty());
        assert(old(fs).log_view().is_prefix_of(old(fs).log_view()));
    }
    let mut i: usize = 0;
    while i < mod_names.len()
        invariant
            0 <= i <= mod_names@.len(),
            fs.wf(),
            sp_bulk_toggle_map(m0, rv, nv, enable, strategy@, disabled_folder@)
                == sp_bulk_toggle_map(fs@, rv, nv.skip(i as int), enable, strategy@,
                disabled_folder@,
            ),
            sp_bulk_toggle_errs(m0, rv, nv, enable, strategy@, disabled_folder@) == err_views(
                errors@,
            ) + sp_bulk_toggle_errs(fs@, rv, nv.skip(i as int), enable, strategy@,
                disabled_folder@,
            ),
            old(fs).log_view().is_prefix_of(fs.log_view()),
        decreases mod_names@.len() - i,
    {
        let ghost pre = fs@;
        let ghost loop_log = fs.log_view();
        let ghost prev_errs = err_views(errors@);
        proof {
            assert(nv.skip(i as int)[0] == nv[i as int]);
            assert(nv[i as int] == mod_names@[i as int]@);
        }
        let outcome = toggle_mod(fs, root, &mod_names[i], enable, strategy, disabled_folder);
        match outcome {
            Ok(_) => {},
            Err(e) => {
                errors.push((clone_bytes(&mod_names[i]), e));
                proof {
                    assert(err_views(errors@) =~= prev_errs.push((nv[i as int], e)));
                }
            },
        }
        proof {
            assert(nv.skip(i as int).skip(1) =~= nv.skip(i + 1));
            crate::ingest::lemma_prefix_chain(old(fs).log_view(), loop_log, fs.log_view());
            match outcome {
                Ok(_) => {},
                Err(e) => {
                    assert(err_views(errors@) + sp_bulk_toggle_errs(
                        fs@,
                        rv,
                        nv.skip(i + 1),
                        enable,
                        strategy@,
                        disabled_folder@,
                    ) =~= prev_errs + (seq![(nv[i as int], e)] + sp_bulk_toggle_errs(
                        fs@,
                        rv,
                        nv.skip(i + 1),
                        enable,
                        strategy@,
                        disabled_folder@,
                    )));
                },
            }
        }
        i += 1;
    }
    proof {
        assert(nv.skip(mod_names@.len() as int).len() == 0);
        assert(err_views(errors@) + Seq::<(Seq<u8>, ModError)>::empty() =~= err_views(errors@));
    }
    errors
}

/// The tree after deleting every named mod in order.
pub open spec fn sp_bulk_delete_map(
    m: Map<Seq<Seq<u8>>, NodeV>,
    root: Seq<Seq<u8>>,
    names: Seq<Seq<u8>>,
) -> Map<Seq<Seq<u8>>, NodeV>
    decreases names.len(),
{
    if names.len() == 0 {
        m
    } else {
        sp_bulk_delete_map(sp_delete_map(m, root, names[0]), root, names.skip(1))
    }
}

/// The failures of deleting every named mod in order.
pub open spec fn sp_bulk_delete_errs(
    m: Map<Seq<Seq<u8>>, NodeV>,
    root: Seq<Seq<u8>>,
    names: Seq<Seq<u8>>,
) -> Seq<(Seq<u8>, ModError)>
    decreases names.len(),
{
    if names.len() == 0 {
        Seq::empty()
    } else {
        let e = sp_delete_err(m, root, names[0]);
        let m2 = sp_delete_map(m, root, names[0]);
        let rest = sp_bulk_delete_errs(m2, root, names.skip(1));
        match e {
            Option::Some(err) => seq![(names[0], err)] + rest,
            Option::None => rest,
        }
    }
}

/// The disk actions of deleting every named mod in order: one
/// recursive removal per mod that exists.
pub open spec fn sp_bulk_delete_log(
    m: Map<Seq<Seq<u8>>, NodeV>,
    root: Seq<Seq<u8>>,
    names: Seq<Seq<u8>>,
) -> Seq<ActionV>
    decreases names.len(),
{
    if names.len() == 0 {
        Seq::empty()
    } else {
        let head = if sp_delete_err(m, root, names[0]) is None {
            seq![ActionV::RemoveAll { path: root.push(names[0]) }]
        } else {
            Seq::<ActionV>::empty()
        };
        head + sp_bulk_delete_log(sp_delete_map(m, root, names[0]), root, names.skip(1))
    }
}

/// Deletes every mod in `mod_names` in order, never stopping at a
/// failure, and returns one entry per failing mod with its name and
/// cause.
#[verifier::loop_isolation(false)]
pub fn delete_mods_bulk(fs: &mut Fs, root: &Vec<Vec<u8>>, mod_names: &Vec<Vec<u8>>) -> (r: Vec<
    (Vec<u8>, ModError),
>)
    requires
        old(fs).wf(),
    ensures
        final(fs).wf(),
        final(fs)@ == sp_bulk_delete_map(old(fs)@, path_view(*root), path_view(*mod_names)),
        err_views(r@) == sp_bulk_delete_errs(old(fs)@, path_view(*root), path_view(*mod_names)),
        final(fs).log_view() == old(fs).log_view() + sp_bulk_delete_log(
            old(fs)@,
            path_view(*root),
            path_view(*mod_names),
        ),
{
    let ghost m0 = fs@;
    let ghost rv = path_view(*root);
    let ghost nv = path_view(*mod_names);
    let mut errors: Vec<(Vec<u8>, ModError)> = Vec::new();
    proof {
        assert(nv.skip(0) =~= nv);
        assert(err_views(errors@) =~= Seq::<(Seq<u8>, ModError)>::empty());
        assert(old(fs).log_view() + Seq::<ActionV>::empty() =~= old(fs).log_view());
    }
    let mut i: usize = 0;
    let ghost done: Seq<ActionV> = Seq::empty();
    while i < mod_names.len()
        invariant
            0 <= i <= mod_names@.len(),
            fs.wf(),
            sp_bulk_delete_map(m0, rv, nv) == sp_bulk_delete_map(fs@, rv, nv.skip(i as int)),
            sp_bulk_delete_errs(m0, rv, nv) == err_views(errors@) + sp_bulk_delete_errs(
                fs@,
                rv,
                nv.skip(i as int),
            ),
            fs.log_view() == old(fs).log_view() + done,
            sp_bulk_delete_log(m0, rv, nv) == done + sp_bulk_delete_log(
                fs@,
                rv,
                nv.skip(i as int),
            ),
        decreases mod_names@.len() - i,
    {
        let ghost pre = fs@;
        let ghost prev_errs = err_views(errors@);
        let ghost prev_done = done;
        proof {
            assert(nv.skip(i as int)[0] == nv[i as int]);
            assert(nv[i as int] == mod_names@[i as int]@);
        }
        let outcome = delete_mod(fs, root, &mod_names[i]);
        proof {
            done = if sp_delete_err(pre, rv, nv[i as int]) is None {
                prev_done + seq![ActionV::RemoveAll { path: rv.push(nv[i as int]) }]
            } else {
                prev_done
            };
        }
        match outcome {
            Ok(_) => {},
            Err(e) => {
                errors.push((clone_bytes(&mod_names[i]), e));
                proof {
                    assert(err_views(errors@) =~= prev_errs.push((nv[i as int], e)));
                }
            },
        }
        proof {
            assert(nv.skip(i as int).skip(1) =~= nv.skip(i + 1));
            assert(fs.log_view() =~= old(fs).log_view() + done);
            assert(sp_bulk_delete_log(m0, rv, nv) =~= done + sp_bulk_delete_log(
                fs@,
                rv,
                nv.skip(i + 1),
            ));
            match outcome {
                Ok(_) => {},
                Err(e) => {
                    assert(err_views(errors@) + sp_bulk_delete_errs(fs@, rv, nv.skip(i + 1))
                        =~= prev_errs + (seq![(nv[i as int], e)] + sp_bulk_delete_errs(
                        fs@,
                        rv,
                        nv.skip(i + 1),
                    )));
                },
            }
        }
        i += 1;
    }
    proof {
        assert(nv.skip(mod_names@.len() as int).len() == 0);
        assert(err_views(errors@) + Seq::<(Seq<u8>, ModError)>::empty() =~= err_views(errors@));
        assert(done + Seq::<ActionV>::empty() =~= done);
    }
    errors
}


/// Bulk-disabling a list of three mods under folder relocation, of
/// which only the middle one is missing from both locations, reports
/// exactly one failure — the missing mod, tagged with its name — and
/// still parks both others under the holding directory.
pub proof fn lemma_bulk_disable_one_missing(
    m: Map<Seq<Seq<u8>>, NodeV>,
    root: Seq<Seq<u8>>,
    a: Seq<u8>,
    b: Seq<u8>,
    c: Seq<u8>,
    holding: Seq<u8>,
)
    requires
        crate::names::valid_name_spec(a),
        crate::names::valid_name_spec(b),
        crate::names::valid_name_spec(c),
        crate::names::valid_name_spec(holding),
        a != b,
        b != c,
        a != c,
        a != holding,
        b != holding,
        c != holding,
        m.dom().contains(root.push(a)),
        m.dom().contains(root.push(c)),
        !m.dom().contains(root.push(b)),
        !m.dom().contains(root.push(holding).push(b)),
        crate::fsmodel::sp_can_make_dirs(m, root.push(holding)),
        !crate::fsmodel::sp_under(m, root.push(holding).push(a)),
        !crate::fsmodel::sp_under(m, root.push(holding).push(c)),
    ensures
        ({
            let names = seq![a, b, c];
            let gid = crate::strategy::generic_id();
            let errs = sp_bulk_toggle_errs(m, root, names, false, gid, holding);
            let m3 = sp_bulk_toggle_map(m, root, names, false, gid, holding);
            &&& errs == seq![(b, ModError::NotFound)]
            &&& m3.dom().contains(root.push(holding).push(a))
            &&& m3.dom().contains(root.push(holding).push(c))
            &&& !m3.dom().contains(root.push(a))
            &&& !m3.dom().contains(root.push(c))
        }),
{
    let names = seq![a, b, c];
    let gid = crate::strategy::generic_id();
    let hold_dir = root.push(holding);
    let active_a = root.push(a);
    let active_b = root.push(b);
    let active_c = root.push(c);
    let parked_a = hold_dir.push(a);
    let parked_b = hold_dir.push(b);
    let parked_c = hold_dir.push(c);
    assert(gid != crate::strategy::ww_id()) by {
        assert(gid.len() != crate::strategy::ww_id().len());
    }
    // Distinct leaf names keep all these paths pairwise distinct.
    assert(active_a.last() == a && active_b.last() == b && active_c.last() == c);
    assert(parked_a.last() == a && parked_b.last() == b && parked_c.last() == c);
    assert(hold_dir.last() == holding);
    assert(active_a != active_b && active_b != active_c && active_a != active_c);
    assert(parked_a != parked_b && parked_b != parked_c && parked_a != parked_c);
    assert(active_a != hold_dir && active_b != hold_dir && active_c != hold_dir);

    // First mod: a real move into the holding directory.
    lemma_disable_moves_one(m, root, a, holding);
    let m_a = crate::strategy::sp_toggle_map(m, root, a, false, gid, holding);
    assert(crate::strategy::sp_toggle_err(m, root, a, false, gid, holding) is None);
    crate::strategy::lemma_relocate_moves(m, root, a, holding, false, active_a, parked_a);
    crate::strategy::lemma_relocate_frame(m, root, a, holding, false);
    assert(m_a == crate::strategy::sp_relocate_map(m, root, a, holding, false));
    assert(m_a.dom().contains(parked_a)) by {
        assert(active_a + Seq::<Seq<u8>>::empty() =~= active_a);
        assert(parked_a + Seq::<Seq<u8>>::empty() =~= parked_a);
        assert(m_a.dom().contains(parked_a + Seq::<Seq<u8>>::empty()));
    }
    assert(!m_a.dom().contains(active_a)) by {
        assert(crate::paths::sp_starts_with(active_a, active_a)) by {
            assert(active_a.take(active_a.len() as int) =~= active_a);
        }
    }

    // Paths of the two other mods sit outside everything the first
    // move touched.
    assert forall|x: Seq<u8>|
        x != a && x != holding implies #[trigger] m_a.dom().contains(root.push(x))
            == m.dom().contains(root.push(x)) && m_a.dom().contains(hold_dir.push(x))
            == m.dom().contains(hold_dir.push(x)) by {
        lemma_outside_move_zone(m, m_a, root, a, holding, x);
    }

    // Second mod: missing from both locations, so the toggle misses.
    assert(!m_a.dom().contains(active_b));
    assert(!m_a.dom().contains(parked_b));
    assert(crate::strategy::sp_toggle_err(m_a, root, b, false, gid, holding) == Option::Some(
        ModError::NotFound,
    ));
    assert(crate::strategy::sp_toggle_map(m_a, root, b, false, gid, holding) == m_a);

    // Third mod: another real move, under the now-present holding chain.
    assert(m_a.dom().contains(active_c));
    assert(crate::fsmodel::sp_can_make_dirs(m_a, hold_dir)) by {
        assert forall|k: int|
            0 < k <= hold_dir.len() && #[trigger] m_a.dom().contains(hold_dir.take(k)) implies
            m_a[hold_dir.take(k)] is Dir by {
            assert(crate::paths::sp_is_nonempty_prefix(hold_dir.take(k), hold_dir)) by {
                assert(hold_dir.take(k) =~= hold_dir.take(hold_dir.take(k).len() as int));
            }
            assert(m.dom().contains(hold_dir.take(k)) ==> m[hold_dir.take(k)] is Dir);
        }
    }
    assert(!crate::fsmodel::sp_under(m_a, parked_c)) by {
        if crate::fsmodel::sp_under(m_a, parked_c) {
            let q = choose|q: Seq<Seq<u8>>|
                m_a.dom().contains(q) && crate::paths::sp_starts_with(q, parked_c);
            lemma_under_parked_stable(m, m_a, root, a, c, holding, q);
        }
    }
    lemma_disable_moves_one(m_a, root, c, holding);
    assert(crate::strategy::sp_toggle_err(m_a, root, c, false, gid, holding) is None);
    let m_c = crate::strategy::sp_toggle_map(m_a, root, c, false, gid, holding);
    crate::strategy::lemma_relocate_moves(m_a, root, c, holding, false, active_c, parked_c);
    crate::strategy::lemma_relocate_frame(m_a, root, c, holding, false);
    assert(m_c.dom().contains(parked_c)) by {
        assert(active_c + Seq::<Seq<u8>>::empty() =~= active_c);
        assert(parked_c + Seq::<Seq<u8>>::empty() =~= parked_c);
        assert(m_c.dom().contains(parked_c + Seq::<Seq<u8>>::empty()));
    }
    assert(!m_c.dom().contains(active_c)) by {
        assert(crate::paths::sp_starts_with(active_c, active_c)) by {
            assert(active_c.take(active_c.len() as int) =~= active_c);
        }
    }
    assert(m_c.dom().contains(parked_a) && !m_c.dom().contains(active_a)) by {
        lemma_outside_move_zone(m_a, m_c, root, c, holding, a);
    }

    // Folding the three toggles gives one failure entry and the final
    // tree above.
    assert(names.skip(1) =~= seq![b, c]);
    assert(seq![b, c].skip(1) =~= seq![c]);
    assert(seq![c].skip(1) =~= Seq::<Seq<u8>>::empty());
    assert(names[0] == a && seq![b, c][0] == b && seq![c][0] == c);
    assert(sp_bulk_toggle_map(m, root, names, false, gid, holding) == sp_bulk_toggle_map(
        m_a,
        root,
        seq![b, c],
        false,
        gid,
        holding,
    ));
    assert(sp_bulk_toggle_map(m_a, root, seq![b, c], false, gid, holding)
        == sp_bulk_toggle_map(m_a, root, seq![c], false, gid, holding));
    assert(sp_bulk_toggle_map(m_a, root, seq![c], false, gid, holding) == sp_bulk_toggle_map(
        m_c,
        root,
        Seq::<Seq<u8>>::empty(),
        false,
        gid,
        holding,
    ));
    assert(sp_bulk_toggle_map(m_c, root, Seq::<Seq<u8>>::empty(), false, gid, holding) == m_c);
    assert(sp_bulk_toggle_errs(m_c, root, Seq::<Seq<u8>>::empty(), false, gid, holding) =~= Seq::<
        (Seq<u8>, ModError),
    >::empty());
    assert(sp_bulk_toggle_errs(m_a, root, seq![c], false, gid, holding) =~= Seq::<
        (Seq<u8>, ModError),
    >::empty());
    assert(sp_bulk_toggle_errs(m_a, root, seq![b, c], false, gid, holding) =~= seq![
        (b, ModError::NotFound),
    ] + sp_bulk_toggle_errs(m_a, root, seq![c], false, gid, holding));
    assert(sp_bulk_toggle_errs(m, root, names, false, gid, holding) =~= sp_bulk_toggle_errs(
        m_a,
        root,
        seq![b, c],
        false,
        gid,
        holding,
    ));
    assert(sp_bulk_toggle_errs(m, root, names, false, gid, holding) =~= seq![
        (b, ModError::NotFound),
    ]);
}

/// Disabling a mod that is present at the active location and whose
/// parking slot is free succeeds.
proof fn lemma_disable_moves_one(
    m: Map<Seq<Seq<u8>>, NodeV>,
    root: Seq<Seq<u8>>,
    name: Seq<u8>,
    holding: Seq<u8>,
)
    requires
        crate::names::valid_name_spec(name),
        crate::names::valid_name_spec(holding),
        name != holding,
        m.dom().contains(root.push(name)),
        crate::fsmodel::sp_can_make_dirs(m, root.push(holding)),
        !crate::fsmodel::sp_under(m, root.push(holding).push(name)),
    ensures
        crate::strategy::sp_relocate_err(m, root, name, holding, false) is None,
        crate::strategy::sp_toggle_err(
            m,
            root,
            name,
            false,
            crate::strategy::generic_id(),
            holding,
        ) is None,
        crate::strategy::sp_toggle_map(
            m,
            root,
            name,
            false,
            crate::strategy::generic_id(),
            holding,
        ) == crate::strategy::sp_relocate_map(m, root, name, holding, false),
{
    let active = root.push(name);
    let hold_dir = root.push(holding);
    let parked = hold_dir.push(name);
    let m1 = crate::fsmodel::sp_with_dirs(m, hold_dir);
    assert(crate::strategy::generic_id() != crate::strategy::ww_id()) by {
        assert(crate::strategy::generic_id().len() != crate::strategy::ww_id().len());
    }
    assert(!crate::fsmodel::sp_under(m1, parked)) by {
        if crate::fsmodel::sp_under(m1, parked) {
            let q = choose|q: Seq<Seq<u8>>|
                m1.dom().contains(q) && crate::paths::sp_starts_with(q, parked);
            assert(q.len() >= parked.len());
            if !m.dom().contains(q) {
                assert(crate::paths::sp_is_nonempty_prefix(q, hold_dir));
            }
        }
    }
    assert(crate::fsmodel::sp_rename_ok(m1, active, parked)) by {
        assert(m1.dom().contains(active));
        assert(!crate::paths::sp_starts_with(parked, active)) by {
            if crate::paths::sp_starts_with(parked, active) {
                assert(parked.take(active.len() as int) =~= hold_dir);
                assert(hold_dir.last() == holding);
                assert(active.last() == name);
            }
        }
        assert(crate::paths::sp_is_nonempty_prefix(hold_dir, hold_dir)) by {
            assert(hold_dir =~= hold_dir.take(hold_dir.len() as int));
        }
        assert(parked.drop_last() =~= hold_dir);
        assert(m1.dom().contains(hold_dir));
        assert(m1[hold_dir] is Dir) by {
            if m.dom().contains(hold_dir) {
                assert(hold_dir.take(hold_dir.len() as int) =~= hold_dir);
                assert(m.dom().contains(hold_dir.take(hold_dir.len() as int)));
            }
        }
    }
}

/// A mod location with a third leaf name is untouched by one mod's move
/// into the holding directory.
proof fn lemma_outside_move_zone(
    m: Map<Seq<Seq<u8>>, NodeV>,
    m2: Map<Seq<Seq<u8>>, NodeV>,
    root: Seq<Seq<u8>>,
    moved: Seq<u8>,
    holding: Seq<u8>,
    other: Seq<u8>,
)
    requires
        crate::strategy::sp_relocate_err(m, root, moved, holding, false) is None,
        m2 == crate::strategy::sp_relocate_map(m, root, moved, holding, false),
        other != moved,
        other != holding,
    ensures
        m2.dom().contains(root.push(other)) == m.dom().contains(root.push(other)),
        m2.dom().contains(root.push(holding).push(other)) == m.dom().contains(
            root.push(holding).push(other),
        ),
{
    let hold_dir = root.push(holding);
    let active_m = root.push(moved);
    let parked_m = hold_dir.push(moved);
    if !m.dom().contains(active_m) {
        assert(m2 == m);
    } else {
        assert(crate::fsmodel::sp_rename_ok(
            crate::fsmodel::sp_with_dirs(m, hold_dir),
            active_m,
            parked_m,
        ));
        assert(moved != holding) by {
            if moved == holding {
                assert(crate::paths::sp_starts_with(parked_m, active_m)) by {
                    assert(parked_m.take(active_m.len() as int) =~= hold_dir);
                    assert(hold_dir =~= active_m);
                }
            }
        }
        crate::strategy::lemma_relocate_frame(m, root, moved, holding, false);
        lemma_slot_outside_zone(root, moved, holding, other);
    }
}

/// Neither location of a third mod lies in a move's touched zone.
proof fn lemma_slot_outside_zone(
    root: Seq<Seq<u8>>,
    moved: Seq<u8>,
    holding: Seq<u8>,
    other: Seq<u8>,
)
    requires
        other != moved,
        other != holding,
        moved != holding,
    ensures
        !crate::paths::sp_starts_with(root.push(other), root.push(moved)),
        !crate::paths::sp_starts_with(root.push(other), root.push(holding).push(moved)),
        !crate::paths::sp_is_nonempty_prefix(root.push(other), root.push(holding)),
        !crate::paths::sp_starts_with(root.push(holding).push(other), root.push(moved)),
        !crate::paths::sp_starts_with(
            root.push(holding).push(other),
            root.push(holding).push(moved),
        ),
        !crate::paths::sp_is_nonempty_prefix(root.push(holding).push(other), root.push(holding)),
{
    let active_o = root.push(other);
    let active_m = root.push(moved);
    let hold_dir = root.push(holding);
    let parked_o = hold_dir.push(other);
    let parked_m = hold_dir.push(moved);
    assert(active_o.last() == other && active_m.last() == moved && hold_dir.last() == holding);
    assert(parked_o.last() == other && parked_m.last() == moved);
    assert(!crate::paths::sp_starts_with(active_o, active_m)) by {
        if crate::paths::sp_starts_with(active_o, active_m) {
            assert(active_o.take(active_m.len() as int) =~= active_o);
            assert(active_o == active_m);
        }
    }
    assert(!crate::paths::sp_is_nonempty_prefix(active_o, hold_dir)) by {
        if crate::paths::sp_is_nonempty_prefix(active_o, hold_dir) {
            assert(active_o == hold_dir.take(active_o.len() as int));
            assert(active_o =~= hold_dir);
        }
    }
    assert(!crate::paths::sp_starts_with(parked_o, active_m)) by {
        if crate::paths::sp_starts_with(parked_o, active_m) {
            assert(parked_o.take(active_m.len() as int) =~= hold_dir);
            assert(hold_dir == active_m);
        }
    }
    assert(!crate::paths::sp_starts_with(parked_o, parked_m)) by {
        if crate::paths::sp_starts_with(parked_o, parked_m) {
            assert(parked_o.take(parked_m.len() as int) =~= parked_o);
            assert(parked_o == parked_m);
        }
    }
    assert(!crate::paths::sp_is_nonempty_prefix(parked_o, hold_dir)) by {
        if crate::paths::sp_is_nonempty_prefix(parked_o, hold_dir) {
            assert(parked_o.len() <= hold_dir.len());
        }
    }
}

/// Anything at or below a third mod's parking slot was already there
/// before the first mod's move.
proof fn lemma_under_parked_stable(
    m: Map<Seq<Seq<u8>>, NodeV>,
    m2: Map<Seq<Seq<u8>>, NodeV>,
    root: Seq<Seq<u8>>,
    moved: Seq<u8>,
    other: Seq<u8>,
    holding: Seq<u8>,
    q: Seq<Seq<u8>>,
)
    requires
        crate::strategy::sp_relocate_err(m, root, moved, holding, false) is None,
        m2 == crate::strategy::sp_relocate_map(m, root, moved, holding, false),
        other != moved,
        other != holding,
        m2.dom().contains(q),
        crate::paths::sp_starts_with(q, root.push(holding).push(other)),
    ensures
        crate::fsmodel::sp_under(m, root.push(holding).push(other)),
{
    let hold_dir = root.push(holding);
    let active_m = root.push(moved);
    let parked_m = hold_dir.push(moved);
    let parked_o = hold_dir.push(other);
    assert(hold_dir.last() == holding && active_m.last() == moved);
    assert(parked_o.last() == other && parked_m.last() == moved);
    if !m.dom().contains(active_m) {
        assert(m2 == m);
    } else {
        // The destination is not inside the source, so the two leaf
        // names differ.
        assert(crate::fsmodel::sp_rename_ok(
            crate::fsmodel::sp_with_dirs(m, hold_dir),
            active_m,
            parked_m,
        ));
        assert(moved != holding) by {
            if moved == holding {
                assert(crate::paths::sp_starts_with(parked_m, active_m)) by {
                    assert(parked_m.take(active_m.len() as int) =~= hold_dir);
                    assert(hold_dir =~= active_m);
                }
            }
        }
        crate::strategy::lemma_relocate_frame(m, root, moved, holding, false);
        assert(q.len() >= parked_o.len());
        assert(q.take(parked_o.len() as int) == parked_o);
        assert(!crate::paths::sp_starts_with(q, active_m)) by {
            if crate::paths::sp_starts_with(q, active_m) {
                assert(q.take(active_m.len() as int) == active_m);
                assert(q.take(active_m.len() as int) =~= parked_o.take(active_m.len() as int))
                    by {
                    assert(forall|j: int|
                        0 <= j < active_m.len() ==> q.take(active_m.len() as int)[j] == q.take(
                            parked_o.len() as int,
                        )[j]);
                }
                assert(parked_o.take(active_m.len() as int) =~= hold_dir);
                assert(active_m == hold_dir);
            }
        }
        assert(!crate::paths::sp_starts_with(q, parked_m)) by {
            if crate::paths::sp_starts_with(q, parked_m) {
                assert(q.take(parked_m.len() as int) == parked_m);
                assert(parked_m =~= parked_o);
            }
        }
        assert(!crate::paths::sp_is_nonempty_prefix(q, hold_dir)) by {
            if crate::paths::sp_is_nonempty_prefix(q, hold_dir) {
                assert(q.len() <= hold_dir.len());
            }
        }
        assert(m.dom().contains(q));
    }
}

} // verus!
