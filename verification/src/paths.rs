//! Paths inside the managed tree.
//!
//! A path is a sequence of byte-string components, rooted at the managed
//! root's parent; it never contains separator bytes inside a component.
//! At the specification level a path is a `Seq<Seq<u8>>`.

use vstd::prelude::*;

verus! {

/// The specification-level value of a concrete path.
pub open spec fn path_view(p: Vec<Vec<u8>>) -> Seq<Seq<u8>> {
    Seq::new(p@.len(), |i: int| p@[i]@)
}

/// `q` lies at or below `p`: `p` is a prefix of `q`.
pub open spec fn sp_starts_with(q: Seq<Seq<u8>>, p: Seq<Seq<u8>>) -> bool {
    p.len() <= q.len() && q.take(p.len() as int) == p
}

/// `q` is one of the nonempty prefixes of `p` (including `p` itself).
pub open spec fn sp_is_nonempty_prefix(q: Seq<Seq<u8>>, p: Seq<Seq<u8>>) -> bool {
    0 < q.len() <= p.len() && q == p.take(q.len() as int)
}

/// Copies a byte string.
pub fn clone_bytes(b: &Vec<u8>) -> (r: Vec<u8>)
    ensures
        r@ == b@,
{
    let mut r: Vec<u8> = Vec::new();
    let mut i: usize = 0;
    while i < b.len()
        invariant
            0 <= i <= b.len(),
            r@.len() == i,
            forall|j: int| 0 <= j < i ==> r@[j] == b@[j],
        decreases b.len() - i,
    {
        r.push(b[i]);
        i += 1;
    }
    proof {
        assert(r@ =~= b@);
    }
    r
}

/// Copies a path.
pub fn clone_path(p: &Vec<Vec<u8>>) -> (r: Vec<Vec<u8>>)
    ensures
        path_view(r) == path_view(*p),
{
    let mut r: Vec<Vec<u8>> = Vec::new();
    let mut i: usize = 0;
    while i < p.len()
        invariant
            0 <= i <= p.len(),
            r@.len() == i,
            forall|j: int| 0 <= j < i ==> r@[j]@ == p@[j]@,
        decreases p.len() - i,
    {
        r.push(clone_bytes(&p[i]));
        i += 1;
    }
    proof {
        assert(path_view(r) =~= path_view(*p));
    }
    r
}

/// Compares two byte strings by value.
pub fn bytes_eq(a: &Vec<u8>, b: &Vec<u8>) -> (r: bool)
    ensures
        r == (a@ == b@),
{
    if a.len() != b.len() {
        return false;
    }
    let mut i: usize = 0;
    while i < a.len()
        invariant
            0 <= i <= a.len(),
            a@.len() == b@.len(),
            forall|j: int| 0 <= j < i ==> a@[j] == b@[j],
        decreases a.len() - i,
    {
        if a[i] != b[i] {
            return false;
        }
        i += 1;
    }
    proof {
        assert(a@ =~= b@);
    }
    true
}

/// Compares two paths by value.
pub fn path_eq(a: &Vec<Vec<u8>>, b: &Vec<Vec<u8>>) -> (r: bool)
    ensures
        r == (path_view(*a) == path_view(*b)),
{
    if a.len() != b.len() {
        proof {
            assert(path_view(*a).len() != path_view(*b).len());
        }
        return false;
    }
    let mut i: usize = 0;
    while i < a.len()
        invariant
            0 <= i <= a.len(),
            a@.len() == b@.len(),
            forall|j: int| 0 <= j < i ==> a@[j]@ == b@[j]@,
        decreases a.len() - i,
    {
        if !bytes_eq(&a[i], &b[i]) {
            proof {
                assert(path_view(*a)[i as int] != path_view(*b)[i as int]);
            }
            return false;
        }
        i += 1;
    }
    proof {
        assert(path_view(*a) =~= path_view(*b));
    }
    true
}

/// Decides whether `q` lies at or below `p`.
pub fn path_starts_with(q: &Vec<Vec<u8>>, p: &Vec<Vec<u8>>) -> (r: bool)
    ensures
        r == sp_starts_with(path_view(*q), path_view(*p)),
{
    if p.len() > q.len() {
        return false;
    }
    let mut i: usize = 0;
    while i < p.len()
        invariant
            0 <= i <= p.len(),
            p@.len() <= q@.len(),
            forall|j: int| 0 <= j < i ==> q@[j]@ == p@[j]@,
        decreases p.len() - i,
    {
        if !bytes_eq(&q[i], &p[i]) {
            proof {
                let qv = path_view(*q);
                let pv = path_view(*p);
                assert(qv.take(pv.len() as int)[i as int] != pv[i as int]);
            }
            return false;
        }
        i += 1;
    }
    proof {
        assert(path_view(*q).take(path_view(*p).len() as int) =~= path_view(*p));
    }
    true
}

/// The first `k` components of a path.
pub fn path_prefix(p: &Vec<Vec<u8>>, k: usize) -> (r: Vec<Vec<u8>>)
    requires
        k <= p@.len(),
    ensures
        path_view(r) == path_view(*p).take(k as int),
{
    let mut r: Vec<Vec<u8>> = Vec::new();
    let mut i: usize = 0;
    while i < k
        invariant
            0 <= i <= k <= p@.len(),
            r@.len() == i,
            forall|j: int| 0 <= j < i ==> r@[j]@ == p@[j]@,
        decreases k - i,
    {
        r.push(clone_bytes(&p[i]));
        i += 1;
    }
    proof {
        assert(path_view(r) =~= path_view(*p).take(k as int));
    }
    r
}

/// A concatenation starts with its first part, and dropping that part
/// gives back the second.
pub proof fn lemma_concat_parts(p: Seq<Seq<u8>>, s: Seq<Seq<u8>>)
    ensures
        sp_starts_with(p + s, p),
        (p + s).skip(p.len() as int) == s,
{
    assert((p + s).take(p.len() as int) =~= p);
    assert((p + s).skip(p.len() as int) =~= s);
}

/// A path below `p` is `p` plus the rest of its components.
pub proof fn lemma_split_at_prefix(q: Seq<Seq<u8>>, p: Seq<Seq<u8>>)
    requires
        sp_starts_with(q, p),
    ensures
        p + q.skip(p.len() as int) == q,
{
    assert(p + q.skip(p.len() as int) =~= q);
}

/// Concatenates two paths.
#[verifier::loop_isolation(false)]
pub fn path_concat(a: &Vec<Vec<u8>>, b: &Vec<Vec<u8>>) -> (r: Vec<Vec<u8>>)
    ensures
        path_view(r) == path_view(*a) + path_view(*b),
{
    let mut r = clone_path(a);
    proof {
        assert(path_view(r).len() == path_view(*a).len());
        assert(r@.len() == a@.len());
        assert forall|j: int| 0 <= j < a@.len() implies r@[j]@ == a@[j]@ by {
            assert(path_view(r)[j] == path_view(*a)[j]);
        }
    }
    let mut i: usize = 0;
    while i < b.len()
        invariant
            0 <= i <= b@.len(),
            r@.len() == a@.len() + i,
            forall|j: int| 0 <= j < a@.len() ==> r@[j]@ == a@[j]@,
            forall|j: int| a@.len() <= j < r@.len() ==> r@[j]@ == b@[j - a@.len()]@,
        decreases b@.len() - i,
    {
        r.push(clone_bytes(&b[i]));
        i += 1;
    }
    proof {
        assert(path_view(r) =~= path_view(*a) + path_view(*b));
    }
    r
}

/// The components of a path from index `k` on.
#[verifier::loop_isolation(false)]
pub fn path_skip(p: &Vec<Vec<u8>>, k: usize) -> (r: Vec<Vec<u8>>)
    requires
        k <= p@.len(),
    ensures
        path_view(r) == path_view(*p).skip(k as int),
{
    let mut r: Vec<Vec<u8>> = Vec::new();
    let mut i: usize = k;
    while i < p.len()
        invariant
            k <= i <= p@.len(),
            r@.len() == i - k,
            forall|j: int| 0 <= j < r@.len() ==> r@[j]@ == p@[k + j]@,
        decreases p@.len() - i,
    {
        r.push(clone_bytes(&p[i]));
        i += 1;
    }
    proof {
        assert(path_view(r) =~= path_view(*p).skip(k as int));
    }
    r
}

/// Appends one component to a path.
pub fn path_join(root: &Vec<Vec<u8>>, name: &Vec<u8>) -> (r: Vec<Vec<u8>>)
    ensures
        path_view(r) == path_view(*root).push(name@),
{
    let mut r = clone_path(root);
    r.push(clone_bytes(name));
    proof {
        assert(path_view(r) =~= path_view(*root).push(name@));
    }
    r
}

} // verus!
