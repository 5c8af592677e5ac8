//! An explicit model of the managed slice of the filesystem.
//!
//! [`Fs`] is a value: a flat list of absolute paths, each carrying a node
//! (directory or file with contents). Its specification-level view is a
//! `Map` from paths to node values. Every mutating primitive also records
//! the concrete disk action it stands for in an append-only log, so that
//! an embedding program can replay the model's changes onto the real disk.
//!
//! The primitives mirror the behaviour of the underlying platform calls
//! they are replayed with: renaming moves a whole subtree and refuses an
//! occupied destination, directory creation makes every missing ancestor
//! and refuses a file in the chain, removal takes a whole subtree.

use vstd::prelude::*;

use crate::paths::{
    clone_bytes, clone_path, lemma_concat_parts, lemma_split_at_prefix, path_eq, path_prefix,
    path_starts_with, path_view, sp_is_nonempty_prefix, sp_starts_with,
};

verus! {

/// Specification-level value of one node.
pub enum NodeV {
    Dir,
    File { data: Seq<u8> },
}

/// One node of the tree: a directory, or a file with its contents.
#[derive(Debug)]
pub enum FsNode {
    Dir,
    File { data: Vec<u8> },
}

impl View for FsNode {
    type V = NodeV;

    open spec fn view(&self) -> NodeV {
        match self {
            FsNode::Dir => NodeV::Dir,
            FsNode::File { data } => NodeV::File { data: data@ },
        }
    }
}

/// One entry of the model: an absolute path and the node found there.
#[derive(Debug)]
pub struct FsEntry {
    pub path: Vec<Vec<u8>>,
    pub node: FsNode,
}

/// Specification-level value of one logged disk action.
pub enum ActionV {
    CreateDirAll { path: Seq<Seq<u8>> },
    Rename { from: Seq<Seq<u8>>, to: Seq<Seq<u8>> },
    WriteFile { path: Seq<Seq<u8>>, data: Seq<u8> },
    RemoveAll { path: Seq<Seq<u8>> },
}

/// One disk action, recorded in the order it must be replayed.
#[derive(Debug)]
pub enum FsAction {
    CreateDirAll { path: Vec<Vec<u8>> },
    Rename { from: Vec<Vec<u8>>, to: Vec<Vec<u8>> },
    WriteFile { path: Vec<Vec<u8>>, data: Vec<u8> },
    RemoveAll { path: Vec<Vec<u8>> },
}

impl View for FsAction {
    type V = ActionV;

    open spec fn view(&self) -> ActionV {
        match self {
            FsAction::CreateDirAll { path } => ActionV::CreateDirAll { path: path_view(*path) },
            FsAction::Rename { from, to } => ActionV::Rename {
                from: path_view(*from),
                to: path_view(*to),
            },
            FsAction::WriteFile { path, data } => ActionV::WriteFile {
                path: path_view(*path),
                data: data@,
            },
            FsAction::RemoveAll { path } => ActionV::RemoveAll { path: path_view(*path) },
        }
    }
}

/// The modelled slice of the filesystem, with its replay log.
#[derive(Debug)]
pub struct Fs {
    pub entries: Vec<FsEntry>,
    pub log: Vec<FsAction>,
}

/// The path of entry `i` of an entry list, as a specification value.
pub open spec fn seq_entry_path(es: Seq<FsEntry>, i: int) -> Seq<Seq<u8>> {
    path_view(es[i].path)
}

/// Some entry of the list sits exactly at `p`.
pub open spec fn seq_has_path(es: Seq<FsEntry>, p: Seq<Seq<u8>>) -> bool {
    exists|i: int| 0 <= i < es.len() && seq_entry_path(es, i) == p
}

/// The node value at `p` (meaningful only when `seq_has_path(es, p)`).
pub open spec fn seq_node_at(es: Seq<FsEntry>, p: Seq<Seq<u8>>) -> NodeV {
    let i = choose|i: int| 0 <= i < es.len() && seq_entry_path(es, i) == p;
    es[i].node@
}

/// An entry list as a map from paths to nodes.
pub open spec fn map_of(es: Seq<FsEntry>) -> Map<Seq<Seq<u8>>, NodeV> {
    Map::new(|p: Seq<Seq<u8>>| seq_has_path(es, p), |p: Seq<Seq<u8>>| seq_node_at(es, p))
}

/// Well-formed entry list: paths are nonempty and pairwise distinct.
pub open spec fn seq_wf(es: Seq<FsEntry>) -> bool {
    &&& forall|i: int| 0 <= i < es.len() ==> #[trigger] seq_entry_path(es, i).len() > 0
    &&& forall|i: int, j: int|
        0 <= i < es.len() && 0 <= j < es.len() && i != j ==> seq_entry_path(es, i)
            != seq_entry_path(es, j)
}

/// The entries among the first `bound` of `es` whose paths do not lie at
/// or below `pv`, in order.
pub open spec fn sp_filter_out(es: Seq<FsEntry>, bound: int, pv: Seq<Seq<u8>>) -> Seq<FsEntry>
    decreases bound,
{
    if bound <= 0 {
        Seq::empty()
    } else if sp_starts_with(seq_entry_path(es, bound - 1), pv) {
        sp_filter_out(es, bound - 1, pv)
    } else {
        sp_filter_out(es, bound - 1, pv).push(es[bound - 1])
    }
}

/// Under well-formedness, any entry index determines the node value that
/// the list holds at its path.
pub proof fn lemma_seq_entry_node(es: Seq<FsEntry>, i: int)
    requires
        seq_wf(es),
        0 <= i < es.len(),
    ensures
        seq_has_path(es, seq_entry_path(es, i)),
        seq_node_at(es, seq_entry_path(es, i)) == es[i].node@,
{
    let p = seq_entry_path(es, i);
    assert(seq_has_path(es, p));
    let j = choose|j: int| 0 <= j < es.len() && seq_entry_path(es, j) == p;
    if i != j {
        assert(seq_entry_path(es, i) != seq_entry_path(es, j));
    }
}

/// Appending one entry at a fresh nonempty path inserts it into the map.
pub proof fn lemma_seq_push(es: Seq<FsEntry>, e: FsEntry)
    requires
        seq_wf(es),
        !seq_has_path(es, path_view(e.path)),
        path_view(e.path).len() > 0,
    ensures
        seq_wf(es.push(e)),
        map_of(es.push(e)) == map_of(es).insert(path_view(e.path), e.node@),
{
    let post = es.push(e);
    let n = es.len() as int;
    let ep = path_view(e.path);
    assert(forall|i: int| 0 <= i < n ==> seq_entry_path(post, i) == seq_entry_path(es, i));
    assert(seq_entry_path(post, n) == ep);
    assert forall|i: int, j: int|
        0 <= i < post.len() && 0 <= j < post.len() && i != j implies seq_entry_path(post, i)
        != seq_entry_path(post, j) by {
        if i < n && j < n {
            assert(seq_entry_path(es, i) != seq_entry_path(es, j));
        } else if i == n && j < n {
            assert(seq_has_path(es, seq_entry_path(es, j)));
        } else if j == n && i < n {
            assert(seq_has_path(es, seq_entry_path(es, i)));
        }
    }
    assert(seq_wf(post));
    assert forall|q: Seq<Seq<u8>>| true implies {
        &&& seq_has_path(post, q) == (seq_has_path(es, q) || q == ep)
        &&& (seq_has_path(post, q) ==> seq_node_at(post, q) == if q == ep {
            e.node@
        } else {
            seq_node_at(es, q)
        })
    } by {
        if seq_has_path(post, q) {
            let i = choose|i: int| 0 <= i < post.len() && seq_entry_path(post, i) == q;
            if i < n {
                assert(seq_has_path(es, q));
            } else {
                assert(q == ep);
            }
        }
        if seq_has_path(es, q) {
            let i = choose|i: int| 0 <= i < es.len() && seq_entry_path(es, i) == q;
            assert(seq_entry_path(post, i) == q);
            assert(seq_has_path(post, q));
        }
        if q == ep {
            assert(seq_has_path(post, q));
        }
        if seq_has_path(post, q) {
            let i = choose|i: int| 0 <= i < post.len() && seq_entry_path(post, i) == q;
            lemma_seq_entry_node(post, i);
            if q == ep {
                if i < n {
                    assert(seq_has_path(es, ep));
                    assert(false);
                }
                assert(seq_node_at(post, q) == e.node@);
            } else {
                assert(i < n);
                lemma_seq_entry_node(es, i);
            }
        }
    }
    assert(map_of(post) =~= map_of(es).insert(ep, e.node@));
}

/// A prefix of a well-formed entry list is well-formed.
pub proof fn lemma_seq_wf_take(es: Seq<FsEntry>, bound: int)
    requires
        seq_wf(es),
        0 <= bound <= es.len(),
    ensures
        seq_wf(es.take(bound)),
{
    let t = es.take(bound);
    assert(forall|i: int| 0 <= i < bound ==> t[i] == es[i]);
    assert forall|i: int| 0 <= i < t.len() implies #[trigger] seq_entry_path(t, i).len() > 0 by {
        assert(seq_entry_path(es, i).len() > 0);
    }
    assert forall|i: int, j: int|
        0 <= i < t.len() && 0 <= j < t.len() && i != j implies seq_entry_path(t, i)
        != seq_entry_path(t, j) by {
        assert(seq_entry_path(es, i) != seq_entry_path(es, j));
    }
}

/// Filtering a subtree out of the first `bound` entries gives the map of
/// those entries with the subtree removed.
pub proof fn lemma_filter_out_map(es: Seq<FsEntry>, bound: int, pv: Seq<Seq<u8>>)
    requires
        seq_wf(es),
        0 <= bound <= es.len(),
    ensures
        seq_wf(sp_filter_out(es, bound, pv)),
        map_of(sp_filter_out(es, bound, pv)) == sp_remove_subtree(map_of(es.take(bound)), pv),
    decreases bound,
{
    lemma_seq_wf_take(es, bound);
    if bound == 0 {
        assert(map_of(sp_filter_out(es, bound, pv)) =~= sp_remove_subtree(
            map_of(es.take(bound)),
            pv,
        ));
    } else {
        lemma_filter_out_map(es, bound - 1, pv);
        lemma_seq_wf_take(es, bound - 1);
        let e = es[bound - 1];
        let ep = seq_entry_path(es, bound - 1);
        let prevt = es.take(bound - 1);
        assert(es.take(bound) == prevt.push(e)) by {
            assert(es.take(bound) =~= prevt.push(e));
        }
        assert(path_view(e.path) == ep);
        assert(!seq_has_path(prevt, ep)) by {
            if seq_has_path(prevt, ep) {
                let i = choose|i: int| 0 <= i < prevt.len() && seq_entry_path(prevt, i) == ep;
                assert(seq_entry_path(es, i) == ep);
                assert(seq_entry_path(es, i) != seq_entry_path(es, bound - 1));
            }
        }
        lemma_seq_push(prevt, e);
        if sp_starts_with(ep, pv) {
            assert(map_of(sp_filter_out(es, bound, pv)) =~= sp_remove_subtree(
                map_of(es.take(bound)),
                pv,
            ));
        } else {
            let f = sp_filter_out(es, bound - 1, pv);
            assert(!seq_has_path(f, ep)) by {
                if seq_has_path(f, ep) {
                    assert(map_of(f).dom().contains(ep));
                    assert(map_of(prevt).dom().contains(ep));
                }
            }
            lemma_seq_push(f, e);
            assert(map_of(sp_filter_out(es, bound, pv)) =~= sp_remove_subtree(
                map_of(es.take(bound)),
                pv,
            ));
        }
    }
}

impl Fs {
    /// The path of entry `i`, as a specification value.
    #[verifier::inline]
    pub open spec fn entry_path(self, i: int) -> Seq<Seq<u8>> {
        seq_entry_path(self.entries@, i)
    }

    /// Some entry sits exactly at `p`.
    #[verifier::inline]
    pub open spec fn has_path(self, p: Seq<Seq<u8>>) -> bool {
        seq_has_path(self.entries@, p)
    }

    /// The node value at `p` (meaningful only when `has_path(p)`).
    #[verifier::inline]
    pub open spec fn node_at(self, p: Seq<Seq<u8>>) -> NodeV {
        seq_node_at(self.entries@, p)
    }

    /// The model as a map from paths to nodes.
    #[verifier::inline]
    pub open spec fn view(self) -> Map<Seq<Seq<u8>>, NodeV> {
        map_of(self.entries@)
    }

    /// Well-formed: paths are nonempty and pairwise distinct.
    #[verifier::inline]
    pub open spec fn wf(self) -> bool {
        seq_wf(self.entries@)
    }

    /// The log as a sequence of action values.
    pub open spec fn log_view(self) -> Seq<ActionV> {
        Seq::new(self.log@.len(), |i: int| self.log@[i]@)
    }

    /// Any entry that sits at `p` holds the node value `node_at(p)`.
    pub proof fn lemma_entry_node(self, i: int)
        requires
            self.wf(),
            0 <= i < self.entries@.len(),
        ensures
            self.has_path(self.entry_path(i)),
            self.node_at(self.entry_path(i)) == self.entries@[i].node@,
    {
        let p = self.entry_path(i);
        assert(self.has_path(p));
        let j = choose|j: int| 0 <= j < self.entries@.len() && self.entry_path(j) == p;
        if i != j {
            assert(self.entry_path(i) != self.entry_path(j));
        }
    }

    /// An empty model with an empty log.
    pub fn empty() -> (fs: Fs)
        ensures
            fs.wf(),
            fs@ == Map::<Seq<Seq<u8>>, NodeV>::empty(),
            fs.log_view() == Seq::<ActionV>::empty(),
    {
        let fs = Fs { entries: Vec::new(), log: Vec::new() };
        proof {
            assert(fs@ =~= Map::<Seq<Seq<u8>>, NodeV>::empty());
            assert(fs.log_view() =~= Seq::<ActionV>::empty());
        }
        fs
    }

    /// The contents of the file at `p`, if a file sits there.
    pub fn read_file(&self, p: &Vec<Vec<u8>>) -> (r: Option<Vec<u8>>)
        requires
            self.wf(),
        ensures
            match r {
                Some(data) => self@.dom().contains(path_view(*p)) && self@[path_view(*p)]
                    == (NodeV::File { data: data@ }),
                None => !(self@.dom().contains(path_view(*p)) && self@[path_view(*p)] is File),
            },
    {
        match self.find_index(p) {
            Some(i) => {
                proof {
                    self.lemma_entry_node(i as int);
                }
                match &self.entries[i].node {
                    FsNode::File { data } => Some(clone_bytes(data)),
                    FsNode::Dir => None,
                }
            },
            None => None,
        }
    }

    /// Index of the entry at `p`, if there is one.
    pub fn find_index(&self, p: &Vec<Vec<u8>>) -> (r: Option<usize>)
        ensures
            match r {
                Some(i) => i < self.entries@.len() && self.entry_path(i as int) == path_view(*p),
                None => !self.has_path(path_view(*p)),
            },
    {
        let mut i: usize = 0;
        while i < self.entries.len()
            invariant
                0 <= i <= self.entries@.len(),
                forall|j: int| 0 <= j < i ==> self.entry_path(j) != path_view(*p),
            decreases self.entries@.len() - i,
        {
            if path_eq(&self.entries[i].path, p) {
                return Some(i);
            }
            i += 1;
        }
        None
    }

    /// Something sits exactly at `p`.
    pub fn exists_at(&self, p: &Vec<Vec<u8>>) -> (r: bool)
        ensures
            r == self@.dom().contains(path_view(*p)),
    {
        match self.find_index(p) {
            Some(_) => true,
            None => false,
        }
    }

    /// Something sits at or below `p`.
    pub fn exists_under(&self, p: &Vec<Vec<u8>>) -> (r: bool)
        ensures
            r == sp_under(self@, path_view(*p)),
    {
        let mut i: usize = 0;
        while i < self.entries.len()
            invariant
                0 <= i <= self.entries@.len(),
                forall|j: int| 0 <= j < i ==> !sp_starts_with(self.entry_path(j), path_view(*p)),
            decreases self.entries@.len() - i,
        {
            if path_starts_with(&self.entries[i].path, p) {
                proof {
                    assert(self.has_path(self.entry_path(i as int)));
                    assert(self@.dom().contains(self.entry_path(i as int)));
                }
                return true;
            }
            i += 1;
        }
        proof {
            if sp_under(self@, path_view(*p)) {
                let q = choose|q: Seq<Seq<u8>>|
                    self@.dom().contains(q) && sp_starts_with(q, path_view(*p));
                let j = choose|j: int|
                    0 <= j < self.entries@.len() && self.entry_path(j) == q;
                assert(!sp_starts_with(self.entry_path(j), path_view(*p)));
            }
        }
        false
    }

    /// A directory sits exactly at `p`.
    pub fn is_dir_at(&self, p: &Vec<Vec<u8>>) -> (r: bool)
        requires
            self.wf(),
        ensures
            r == (self@.dom().contains(path_view(*p)) && self@[path_view(*p)] is Dir),
    {
        match self.find_index(p) {
            Some(i) => {
                proof {
                    self.lemma_entry_node(i as int);
                }
                match &self.entries[i].node {
                    FsNode::Dir => true,
                    FsNode::File { .. } => false,
                }
            }
            None => false,
        }
    }
}

/// Some path of `m` lies at or below `p`.
pub open spec fn sp_under(m: Map<Seq<Seq<u8>>, NodeV>, p: Seq<Seq<u8>>) -> bool {
    exists|q: Seq<Seq<u8>>| m.dom().contains(q) && sp_starts_with(q, p)
}

/// Some path of `m` lies strictly below `p`.
pub open spec fn sp_under_strict(m: Map<Seq<Seq<u8>>, NodeV>, p: Seq<Seq<u8>>) -> bool {
    exists|q: Seq<Seq<u8>>|
        m.dom().contains(q) && sp_starts_with(q, p) && q.len() > p.len()
}

/// Directory creation along `p` can succeed: no existing prefix of `p`
/// is a file.
pub open spec fn sp_can_make_dirs(m: Map<Seq<Seq<u8>>, NodeV>, p: Seq<Seq<u8>>) -> bool {
    forall|k: int|
        0 < k <= p.len() ==> (#[trigger] m.dom().contains(p.take(k)) ==> m[p.take(k)] is Dir)
}

/// `m` with a directory at every nonempty prefix of `p` that was missing.
pub open spec fn sp_with_dirs(m: Map<Seq<Seq<u8>>, NodeV>, p: Seq<Seq<u8>>) -> Map<
    Seq<Seq<u8>>,
    NodeV,
> {
    Map::new(
        |q: Seq<Seq<u8>>| m.dom().contains(q) || sp_is_nonempty_prefix(q, p),
        |q: Seq<Seq<u8>>| if m.dom().contains(q) {
            m[q]
        } else {
            NodeV::Dir
        },
    )
}

/// `m` with everything at or below `p` gone.
pub open spec fn sp_remove_subtree(m: Map<Seq<Seq<u8>>, NodeV>, p: Seq<Seq<u8>>) -> Map<
    Seq<Seq<u8>>,
    NodeV,
> {
    Map::new(|q: Seq<Seq<u8>>| m.dom().contains(q) && !sp_starts_with(q, p), |q: Seq<Seq<u8>>| m[q])
}

/// Renaming the subtree at `from` to `to` can succeed: the source exists,
/// nothing sits at or below the destination, the destination is not inside
/// the source, and the destination's parent is an existing directory.
pub open spec fn sp_rename_ok(
    m: Map<Seq<Seq<u8>>, NodeV>,
    from: Seq<Seq<u8>>,
    to: Seq<Seq<u8>>,
) -> bool {
    &&& from.len() > 0
    &&& to.len() > 0
    &&& m.dom().contains(from)
    &&& !sp_under(m, to)
    &&& !sp_starts_with(to, from)
    &&& (to.len() > 1 ==> m.dom().contains(to.drop_last()) && m[to.drop_last()] is Dir)
}

/// `m` with the whole subtree at `from` moved to `to`.
pub open spec fn sp_rename(
    m: Map<Seq<Seq<u8>>, NodeV>,
    from: Seq<Seq<u8>>,
    to: Seq<Seq<u8>>,
) -> Map<Seq<Seq<u8>>, NodeV> {
    Map::new(
        |q: Seq<Seq<u8>>| if sp_starts_with(q, to) {
            m.dom().contains(from + q.skip(to.len() as int))
        } else if sp_starts_with(q, from) {
            false
        } else {
            m.dom().contains(q)
        },
        |q: Seq<Seq<u8>>| if sp_starts_with(q, to) {
            m[from + q.skip(to.len() as int)]
        } else {
            m[q]
        },
    )
}

/// Writing a file at `p` can succeed: the parent is an existing directory,
/// and `p` is not an existing directory nor has anything below it.
pub open spec fn sp_write_ok(m: Map<Seq<Seq<u8>>, NodeV>, p: Seq<Seq<u8>>) -> bool {
    &&& p.len() > 0
    &&& (p.len() > 1 ==> m.dom().contains(p.drop_last()) && m[p.drop_last()] is Dir)
    &&& !(m.dom().contains(p) && m[p] is Dir)
    &&& !sp_under_strict(m, p)
}

/// Copies one node.
pub fn clone_node(n: &FsNode) -> (r: FsNode)
    ensures
        r@ == n@,
{
    match n {
        FsNode::Dir => FsNode::Dir,
        FsNode::File { data } => FsNode::File { data: clone_bytes(data) },
    }
}

impl Fs {
    /// Appending one entry at a fresh path inserts it into the view.
    proof fn lemma_push_entry(pre: Fs, post: Fs, e: FsEntry)
        requires
            pre.wf(),
            post.entries@ == pre.entries@.push(e),
            !pre.has_path(path_view(e.path)),
            path_view(e.path).len() > 0,
        ensures
            post.wf(),
            post@ == pre@.insert(path_view(e.path), e.node@),
    {
        lemma_seq_push(pre.entries@, e);
    }

    /// Creates a directory at every missing prefix of `p`; fails, changing
    /// nothing, when an existing prefix of `p` is a file. Mirrors the
    /// platform's recursive directory creation.
    #[verifier::loop_isolation(false)]
    pub fn create_dir_all(&mut self, p: &Vec<Vec<u8>>) -> (r: Result<(), ()>)
        requires
            old(self).wf(),
        ensures
            final(self).wf(),
            r is Ok <==> sp_can_make_dirs(old(self)@, path_view(*p)),
            r is Ok ==> final(self)@ == sp_with_dirs(old(self)@, path_view(*p)),
            r is Ok ==> final(self).log_view() == old(self).log_view().push(
                ActionV::CreateDirAll { path: path_view(*p) },
            ),
            r is Err ==> final(self)@ == old(self)@ && final(self).log_view() == old(
                self,
            ).log_view(),
    {
        let ghost pv = path_view(*p);
        // First pass: refuse if an existing prefix is a file.
        let mut i: usize = 0;
        while i < p.len()
            invariant
                0 <= i <= p@.len(),
                forall|j: int|
                    0 < j <= i ==> (#[trigger] old(self)@.dom().contains(pv.take(j))
                        ==> old(self)@[pv.take(j)] is Dir),
            decreases p@.len() - i,
        {
            let pref = path_prefix(p, i + 1);
            if let Some(idx) = self.find_index(&pref) {
                proof {
                    self.lemma_entry_node(idx as int);
                }
                match &self.entries[idx].node {
                    FsNode::File { .. } => {
                        proof {
                            assert(old(self)@.dom().contains(pv.take(i + 1)));
                            assert(!(old(self)@[pv.take(i + 1)] is Dir));
                            assert(!sp_can_make_dirs(old(self)@, pv));
                        }
                        return Err(());
                    }
                    FsNode::Dir => {}
                }
            }
            i += 1;
        }
        proof {
            assert(sp_can_make_dirs(old(self)@, pv));
            assert(self@ =~= sp_with_dirs(old(self)@, pv.take(0)));
        }
        // Second pass: add the missing prefixes.
        let mut i: usize = 0;
        while i < p.len()
            invariant
                0 <= i <= p@.len(),
                self.wf(),
                self@ == sp_with_dirs(old(self)@, pv.take(i as int)),
                self.log@ == old(self).log@,
            decreases p@.len() - i,
        {
            let ghost k: int = i + 1;
            let pref = path_prefix(p, i + 1);
            let ghost prev = *self;
            proof {
                assert forall|q: Seq<Seq<u8>>|
                    sp_is_nonempty_prefix(q, pv.take(k)) && q != pv.take(k)
                        implies sp_is_nonempty_prefix(q, pv.take(k - 1)) by {
                    if q.len() == k {
                        assert(q =~= pv.take(k));
                    }
                    assert(q =~= pv.take(k - 1).take(q.len() as int));
                }
                assert forall|q: Seq<Seq<u8>>|
                    sp_is_nonempty_prefix(q, pv.take(k - 1))
                        implies sp_is_nonempty_prefix(q, pv.take(k)) by {
                    assert(q =~= pv.take(k).take(q.len() as int));
                }
            }
            if self.find_index(&pref).is_none() {
                let ghost eg = FsEntry { path: pref, node: FsNode::Dir };
                self.entries.push(FsEntry { path: pref, node: FsNode::Dir });
                proof {
                    Fs::lemma_push_entry(prev, *self, eg);
                    assert(path_view(eg.path) == pv.take(k));
                    assert(self@ == prev@.insert(pv.take(k), NodeV::Dir));
                    assert(!prev@.dom().contains(pv.take(k)));
                    assert(!old(self)@.dom().contains(pv.take(k)));
                    assert(sp_is_nonempty_prefix(pv.take(k), pv.take(k))) by {
                        assert(pv.take(k).take(k) =~= pv.take(k));
                    }
                    assert(self@.dom() =~= sp_with_dirs(old(self)@, pv.take(k)).dom());
                    assert(forall|q: Seq<Seq<u8>>|
                        #[trigger] self@.dom().contains(q) ==> self@[q] == sp_with_dirs(
                            old(self)@,
                            pv.take(k),
                        )[q]);
                    assert(self@ =~= sp_with_dirs(old(self)@, pv.take(k)));
                }
            } else {
                proof {
                    assert(self@.dom().contains(pv.take(k)));
                    assert(old(self)@.dom().contains(pv.take(k))) by {
                        if !old(self)@.dom().contains(pv.take(k)) {
                            assert(sp_is_nonempty_prefix(pv.take(k), pv.take(k - 1)));
                        }
                    }
                    assert(self@ =~= sp_with_dirs(old(self)@, pv.take(k)));
                }
            }
            i += 1;
        }
        proof {
            assert(i == p@.len());
            assert(pv.take(p@.len() as int) =~= pv);
            assert(self@ == sp_with_dirs(old(self)@, pv));
        }
        let ghost before_log = *self;
        self.log.push(FsAction::CreateDirAll { path: clone_path(p) });
        proof {
            assert(self.entries == before_log.entries);
            assert(self@ =~= sp_with_dirs(old(self)@, pv));
            assert(self.log_view() =~= old(self).log_view().push(
                ActionV::CreateDirAll { path: pv },
            ));
        }
        Ok(())
    }

    /// Moves the whole subtree at `from` to `to`; fails, changing nothing,
    /// when the source is missing, the destination is occupied or inside
    /// the source, or the destination's parent is not an existing
    /// directory. Mirrors the platform's rename call.
    #[verifier::loop_isolation(false)]
    pub fn rename(&mut self, from: &Vec<Vec<u8>>, to: &Vec<Vec<u8>>) -> (r: Result<(), ()>)
        requires
            old(self).wf(),
        ensures
            final(self).wf(),
            r is Ok <==> sp_rename_ok(old(self)@, path_view(*from), path_view(*to)),
            r is Ok ==> final(self)@ == sp_rename(old(self)@, path_view(*from), path_view(*to)),
            r is Ok ==> final(self).log_view() == old(self).log_view().push(
                ActionV::Rename { from: path_view(*from), to: path_view(*to) },
            ),
            r is Err ==> final(self)@ == old(self)@ && final(self).log_view() == old(
                self,
            ).log_view(),
    {
        let ghost fv = path_view(*from);
        let ghost tv = path_view(*to);
        if from.len() == 0 || to.len() == 0 {
            return Err(());
        }
        if self.find_index(from).is_none() {
            return Err(());
        }
        if self.exists_under(to) {
            return Err(());
        }
        if path_starts_with(to, from) {
            return Err(());
        }
        if to.len() > 1 {
            let parent = path_prefix(to, to.len() - 1);
            proof {
                assert(tv.take(tv.len() - 1) =~= tv.drop_last());
            }
            match self.find_index(&parent) {
                None => {
                    return Err(());
                },
                Some(pi) => {
                    proof {
                        self.lemma_entry_node(pi as int);
                    }
                    match &self.entries[pi].node {
                        FsNode::File { .. } => {
                            return Err(());
                        },
                        FsNode::Dir => {},
                    }
                },
            }
        }
        proof {
            assert(sp_rename_ok(old(self)@, fv, tv));
        }
        let mut i: usize = 0;
        while i < self.entries.len()
            invariant
                0 <= i <= self.entries@.len(),
                self.entries@.len() == old(self).entries@.len(),
                self.log@ == old(self).log@,
                forall|j: int|
                    i <= j < self.entries@.len() ==> self.entries@[j] == old(self).entries@[j],
                forall|j: int|
                    0 <= j < i ==> #[trigger] self.entries@[j].node@ == old(
                        self,
                    ).entries@[j].node@,
                forall|j: int|
                    0 <= j < i ==> #[trigger] seq_entry_path(self.entries@, j) == spec_tx_rename(
                        seq_entry_path(old(self).entries@, j),
                        fv,
                        tv,
                    ),
            decreases self.entries@.len() - i,
        {
            let renames = path_starts_with(&self.entries[i].path, from);
            if renames {
                let mut np = clone_path(to);
                proof {
                    assert forall|j: int| 0 <= j < to@.len() implies np@[j]@ == to@[j]@ by {
                        assert(path_view(np)[j] == path_view(*to)[j]);
                    }
                }
                let mut kk: usize = from.len();
                while kk < self.entries[i].path.len()
                    invariant
                        from@.len() <= kk <= self.entries@[i as int].path@.len(),
                        np@.len() == to@.len() + kk - from@.len(),
                        forall|j: int| 0 <= j < to@.len() ==> np@[j]@ == to@[j]@,
                        forall|j: int|
                            to@.len() <= j < np@.len() ==> np@[j]@ == self.entries@[i as int].path@[
                                j - to@.len() + from@.len()
                            ]@,
                    decreases self.entries@[i as int].path@.len() - kk,
                {
                    let c = clone_bytes(&self.entries[i].path[kk]);
                    np.push(c);
                    kk += 1;
                }
                proof {
                    assert(path_view(np) =~= tv + self.entry_path(i as int).skip(fv.len() as int));
                }
                let ghost before_set = *self;
                self.entries[i].path = np;
                proof {
                    assert(self.entry_path(i as int) == spec_tx_rename(
                        old(self).entry_path(i as int),
                        fv,
                        tv,
                    ));
                    assert forall|j: int| 0 <= j < i implies #[trigger] seq_entry_path(
                        self.entries@,
                        j,
                    ) == spec_tx_rename(seq_entry_path(old(self).entries@, j), fv, tv) by {
                        assert(self.entries@[j] == before_set.entries@[j]);
                        assert(seq_entry_path(before_set.entries@, j) == spec_tx_rename(
                            seq_entry_path(old(self).entries@, j),
                            fv,
                            tv,
                        ));
                    }
                }
            } else {
                proof {
                    assert(self.entry_path(i as int) == spec_tx_rename(
                        old(self).entry_path(i as int),
                        fv,
                        tv,
                    ));
                }
            }
            i += 1;
        }
        proof {
            let pre = *old(self);
            let n = pre.entries@.len() as int;
            // Transformed paths stay nonempty and pairwise distinct.
            assert forall|j: int| 0 <= j < n implies #[trigger] self.entry_path(j).len() > 0 by {
                assert(pre.entry_path(j).len() > 0);
            }
            assert forall|j1: int, j2: int|
                0 <= j1 < n && 0 <= j2 < n && j1 != j2 implies self.entry_path(j1)
                != self.entry_path(j2) by {
                let p1 = pre.entry_path(j1);
                let p2 = pre.entry_path(j2);
                assert(p1 != p2);
                if sp_starts_with(p1, fv) && sp_starts_with(p2, fv) {
                    lemma_split_at_prefix(p1, fv);
                    lemma_split_at_prefix(p2, fv);
                    if self.entry_path(j1) == self.entry_path(j2) {
                        lemma_concat_parts(tv, p1.skip(fv.len() as int));
                        lemma_concat_parts(tv, p2.skip(fv.len() as int));
                        assert(p1.skip(fv.len() as int) == p2.skip(fv.len() as int));
                        assert(p1 == p2);
                    }
                } else if sp_starts_with(p1, fv) && !sp_starts_with(p2, fv) {
                    if self.entry_path(j1) == self.entry_path(j2) {
                        lemma_concat_parts(tv, p1.skip(fv.len() as int));
                        assert(sp_starts_with(p2, tv));
                        assert(pre.has_path(p2));
                        assert(sp_under(pre@, tv));
                    }
                } else if !sp_starts_with(p1, fv) && sp_starts_with(p2, fv) {
                    if self.entry_path(j1) == self.entry_path(j2) {
                        lemma_concat_parts(tv, p2.skip(fv.len() as int));
                        assert(sp_starts_with(p1, tv));
                        assert(pre.has_path(p1));
                        assert(sp_under(pre@, tv));
                    }
                }
            }
            assert(self.wf());
            // The view is the renamed map.
            assert forall|q: Seq<Seq<u8>>|
                self@.dom().contains(q) == sp_rename(pre@, fv, tv).dom().contains(q) by {
                if self.has_path(q) {
                    let j = choose|j: int| 0 <= j < n && self.entry_path(j) == q;
                    let pj = pre.entry_path(j);
                    assert(pre.has_path(pj));
                    if sp_starts_with(pj, fv) {
                        lemma_split_at_prefix(pj, fv);
                        lemma_concat_parts(tv, pj.skip(fv.len() as int));
                        assert(sp_starts_with(q, tv));
                        assert(fv + q.skip(tv.len() as int) == pj);
                    } else {
                        assert(q == pj);
                        assert(!sp_starts_with(q, tv)) by {
                            if sp_starts_with(q, tv) {
                                assert(sp_under(pre@, tv));
                            }
                        }
                    }
                }
                if sp_rename(pre@, fv, tv).dom().contains(q) {
                    if sp_starts_with(q, tv) {
                        let src = fv + q.skip(tv.len() as int);
                        assert(pre@.dom().contains(src));
                        let j = choose|j: int| 0 <= j < n && pre.entry_path(j) == src;
                        lemma_concat_parts(fv, q.skip(tv.len() as int));
                        assert(sp_starts_with(src, fv));
                        assert(self.entry_path(j) == tv + src.skip(fv.len() as int));
                        lemma_split_at_prefix(q, tv);
                        assert(self.entry_path(j) == q);
                        assert(self.has_path(q));
                    } else {
                        assert(!sp_starts_with(q, fv));
                        assert(pre@.dom().contains(q));
                        let j = choose|j: int| 0 <= j < n && pre.entry_path(j) == q;
                        assert(self.entry_path(j) == q);
                        assert(self.has_path(q));
                    }
                }
            }
            assert forall|q: Seq<Seq<u8>>| #[trigger]
                self@.dom().contains(q) implies self@[q] == sp_rename(pre@, fv, tv)[q] by {
                let j = choose|j: int| 0 <= j < n && self.entry_path(j) == q;
                self.lemma_entry_node(j);
                let pj = pre.entry_path(j);
                pre.lemma_entry_node(j);
                if sp_starts_with(pj, fv) {
                    lemma_split_at_prefix(pj, fv);
                    lemma_concat_parts(tv, pj.skip(fv.len() as int));
                    assert(sp_starts_with(q, tv));
                    assert(fv + q.skip(tv.len() as int) == pj);
                    assert(sp_rename(pre@, fv, tv)[q] == pre@[pj]);
                } else {
                    assert(q == pj);
                    assert(!sp_starts_with(q, tv)) by {
                        if sp_starts_with(q, tv) {
                            assert(sp_under(pre@, tv));
                        }
                    }
                    assert(sp_rename(pre@, fv, tv)[q] == pre@[q]);
                }
            }
            assert(self@ =~= sp_rename(pre@, fv, tv));
        }
        self.log.push(FsAction::Rename { from: clone_path(from), to: clone_path(to) });
        proof {
            assert(self.log_view() =~= old(self).log_view().push(
                ActionV::Rename { from: fv, to: tv },
            ));
        }
        Ok(())
    }

    /// Removes the node at `p` and everything below it; fails, changing
    /// nothing, when nothing sits at `p`. Mirrors recursive removal.
    #[verifier::loop_isolation(false)]
    pub fn remove_all(&mut self, p: &Vec<Vec<u8>>) -> (r: Result<(), ()>)
        requires
            old(self).wf(),
        ensures
            final(self).wf(),
            r is Ok <==> old(self)@.dom().contains(path_view(*p)),
            r is Ok ==> final(self)@ == sp_remove_subtree(old(self)@, path_view(*p)),
            r is Ok ==> final(self).log_view() == old(self).log_view().push(
                ActionV::RemoveAll { path: path_view(*p) },
            ),
            r is Err ==> final(self)@ == old(self)@ && final(self).log_view() == old(
                self,
            ).log_view(),
    {
        let ghost pv = path_view(*p);
        let ghost pre = old(self).entries@;
        if self.find_index(p).is_none() {
            return Err(());
        }
        let mut i: usize = 0;
        let ghost j: int = 0;
        proof {
            assert(self.entries@ =~= sp_filter_out(pre, 0, pv) + pre.skip(0));
        }
        while i < self.entries.len()
            invariant
                0 <= j <= pre.len(),
                i as int == sp_filter_out(pre, j, pv).len(),
                self.entries@ == sp_filter_out(pre, j, pv) + pre.skip(j),
                self.log@ == old(self).log@,
            decreases self.entries@.len() - i,
        {
            proof {
                assert(pre.skip(j).len() > 0);
                assert(self.entries@[i as int] == pre.skip(j)[0]);
                assert(pre.skip(j)[0] == pre[j]);
            }
            let under = path_starts_with(&self.entries[i].path, p);
            proof {
                assert(seq_entry_path(pre, j) == path_view(self.entries@[i as int].path));
            }
            if under {
                self.entries.remove(i);
                proof {
                    assert(sp_filter_out(pre, j + 1, pv) == sp_filter_out(pre, j, pv));
                    assert(self.entries@ =~= sp_filter_out(pre, j + 1, pv) + pre.skip(j + 1));
                }
            } else {
                proof {
                    assert(sp_filter_out(pre, j + 1, pv) == sp_filter_out(pre, j, pv).push(
                        pre[j],
                    ));
                    assert(self.entries@ =~= sp_filter_out(pre, j + 1, pv) + pre.skip(j + 1));
                }
                i += 1;
            }
            proof {
                j = j + 1;
            }
        }
        proof {
            assert(pre.skip(j).len() == 0);
            assert(j == pre.len());
            assert(self.entries@ =~= sp_filter_out(pre, pre.len() as int, pv));
            lemma_filter_out_map(pre, pre.len() as int, pv);
            assert(pre.take(pre.len() as int) =~= pre);
            assert(self@ == sp_remove_subtree(old(self)@, pv));
            assert(self.wf());
        }
        self.log.push(FsAction::RemoveAll { path: clone_path(p) });
        proof {
            assert(self.log_view() =~= old(self).log_view().push(
                ActionV::RemoveAll { path: pv },
            ));
        }
        Ok(())
    }

    /// Writes a file at `p`, replacing an existing file there; fails,
    /// changing nothing, when the parent is not an existing directory or
    /// when a directory or a subtree occupies `p`. Mirrors file creation.
    #[verifier::loop_isolation(false)]
    pub fn write_file(&mut self, p: &Vec<Vec<u8>>, data: Vec<u8>) -> (r: Result<(), ()>)
        requires
            old(self).wf(),
        ensures
            final(self).wf(),
            r is Ok <==> sp_write_ok(old(self)@, path_view(*p)),
            r is Ok ==> final(self)@ == old(self)@.insert(
                path_view(*p),
                NodeV::File { data: data@ },
            ),
            r is Ok ==> final(self).log_view() == old(self).log_view().push(
                ActionV::WriteFile { path: path_view(*p), data: data@ },
            ),
            r is Err ==> final(self)@ == old(self)@ && final(self).log_view() == old(
                self,
            ).log_view(),
    {
        let ghost pv = path_view(*p);
        if p.len() == 0 {
            return Err(());
        }
        if p.len() > 1 {
            let parent = path_prefix(p, p.len() - 1);
            proof {
                assert(pv.take(pv.len() - 1) =~= pv.drop_last());
            }
            match self.find_index(&parent) {
                None => {
                    return Err(());
                },
                Some(pi) => {
                    proof {
                        self.lemma_entry_node(pi as int);
                    }
                    match &self.entries[pi].node {
                        FsNode::File { .. } => {
                            return Err(());
                        },
                        FsNode::Dir => {},
                    }
                },
            }
        }
        let mut i: usize = 0;
        while i < self.entries.len()
            invariant
                0 <= i <= self.entries@.len(),
                forall|j: int|
                    0 <= j < i ==> !(sp_starts_with(#[trigger] seq_entry_path(self.entries@, j), pv)
                        && seq_entry_path(self.entries@, j).len() > pv.len()),
            decreases self.entries@.len() - i,
        {
            if path_starts_with(&self.entries[i].path, p) && self.entries[i].path.len() > p.len() {
                proof {
                    assert(self@.dom().contains(seq_entry_path(self.entries@, i as int)));
                    assert(sp_under_strict(old(self)@, pv));
                }
                return Err(());
            }
            i += 1;
        }
        proof {
            assert(!sp_under_strict(old(self)@, pv)) by {
                if sp_under_strict(old(self)@, pv) {
                    let q = choose|q: Seq<Seq<u8>>|
                        old(self)@.dom().contains(q) && sp_starts_with(q, pv) && q.len() > pv.len();
                    let j = choose|j: int|
                        0 <= j < self.entries@.len() && seq_entry_path(self.entries@, j) == q;
                }
            }
        }
        match self.find_index(p) {
            Some(idx) => {
                proof {
                    self.lemma_entry_node(idx as int);
                }
                match &self.entries[idx].node {
                    FsNode::Dir => {
                        return Err(());
                    },
                    FsNode::File { .. } => {},
                }
                proof {
                    assert(sp_write_ok(old(self)@, pv));
                }
                self.log.push(FsAction::WriteFile {
                    path: clone_path(p),
                    data: clone_bytes(&data),
                });
                let ghost pre = *self;
                self.entries[idx].node = FsNode::File { data };
                proof {
                    assert(forall|j: int|
                        0 <= j < self.entries@.len() && j != idx ==> self.entries@[j]
                            == pre.entries@[j]);
                    assert(self.entries@[idx as int].path == pre.entries@[idx as int].path);
                    assert forall|j: int|
                        0 <= j < self.entries@.len() implies #[trigger] seq_entry_path(
                        self.entries@,
                        j,
                    ) == seq_entry_path(pre.entries@, j) by {}
                    assert(self.wf());
                    assert forall|q: Seq<Seq<u8>>|
                        self.has_path(q) == pre.has_path(q) by {
                        if self.has_path(q) {
                            let k = choose|k: int|
                                0 <= k < self.entries@.len() && seq_entry_path(self.entries@, k)
                                    == q;
                            assert(seq_entry_path(pre.entries@, k) == q);
                        }
                        if pre.has_path(q) {
                            let k = choose|k: int|
                                0 <= k < pre.entries@.len() && seq_entry_path(pre.entries@, k)
                                    == q;
                            assert(seq_entry_path(self.entries@, k) == q);
                        }
                    }
                    assert forall|q: Seq<Seq<u8>>| #[trigger]
                        self@.dom().contains(q) implies self@[q] == old(self)@.insert(
                        pv,
                        NodeV::File { data: data@ },
                    )[q] by {
                        let k = choose|k: int|
                            0 <= k < self.entries@.len() && seq_entry_path(self.entries@, k) == q;
                        lemma_seq_entry_node(self.entries@, k);
                        lemma_seq_entry_node(pre.entries@, k);
                        if q == pv {
                            assert(seq_entry_path(pre.entries@, idx as int) == pv);
                            assert(k == idx);
                        } else {
                            assert(k != idx);
                        }
                    }
                    assert(self@ =~= old(self)@.insert(pv, NodeV::File { data: data@ }));
                    assert(self.log_view() =~= old(self).log_view().push(
                        ActionV::WriteFile { path: pv, data: data@ },
                    ));
                }
                Ok(())
            },
            None => {
                proof {
                    assert(sp_write_ok(old(self)@, pv));
                }
                self.log.push(FsAction::WriteFile {
                    path: clone_path(p),
                    data: clone_bytes(&data),
                });
                let ghost prev = *self;
                let np = clone_path(p);
                let ghost eg = FsEntry { path: np, node: FsNode::File { data } };
                self.entries.push(FsEntry { path: np, node: FsNode::File { data } });
                proof {
                    Fs::lemma_push_entry(prev, *self, eg);
                    assert(path_view(eg.path) == pv);
                    assert(self@ == old(self)@.insert(pv, NodeV::File { data: data@ }));
                    assert(self.log_view() =~= old(self).log_view().push(
                        ActionV::WriteFile { path: pv, data: data@ },
                    ));
                }
                Ok(())
            },
        }
    }
}

/// The path `q` after a rename of the subtree at `fv` to `tv`.
pub open spec fn spec_tx_rename(
    q: Seq<Seq<u8>>,
    fv: Seq<Seq<u8>>,
    tv: Seq<Seq<u8>>,
) -> Seq<Seq<u8>> {
    if sp_starts_with(q, fv) {
        tv + q.skip(fv.len() as int)
    } else {
        q
    }
}

} // verus!
