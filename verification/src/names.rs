//! Leaf names: the single path components that mods, holding folders and
//! archive entries are addressed by.
//!
//! A name is a byte string (one component of a path, never a whole path).
//! A *valid* name contains no path separators and is not one of the two
//! relative components, so joining it under a root can never escape the
//! root.

use vstd::prelude::*;

verus! {

/// Path separator byte `/`.
pub const SEP_SLASH: u8 = 47;
/// Path separator byte `\`.
pub const SEP_BACKSLASH: u8 = 92;
/// The byte `.`.
pub const DOT: u8 = 46;

/// A name may stand as one component under a root: it is nonempty,
/// contains no separator byte, and is neither `.` nor `..`.
pub open spec fn valid_name_spec(n: Seq<u8>) -> bool {
    &&& n.len() > 0
    &&& forall|i: int| 0 <= i < n.len() ==> n[i] != SEP_SLASH && n[i] != SEP_BACKSLASH
    &&& n != seq![DOT]
    &&& n != seq![DOT, DOT]
}

/// Decides [`valid_name_spec`] for a concrete name.
pub fn valid_name(n: &Vec<u8>) -> (r: bool)
    ensures
        r == valid_name_spec(n@),
{
    if n.len() == 0 {
        return false;
    }
    if n.len() == 1 && n[0] == DOT {
        proof {
            assert(n@ =~= seq![DOT]);
        }
        return false;
    }
    if n.len() == 2 && n[0] == DOT && n[1] == DOT {
        proof {
            assert(n@ =~= seq![DOT, DOT]);
        }
        return false;
    }
    let mut i: usize = 0;
    while i < n.len()
        invariant
            0 <= i <= n.len(),
            forall|j: int| 0 <= j < i ==> n@[j] != SEP_SLASH && n@[j] != SEP_BACKSLASH,
        decreases n.len() - i,
    {
        if n[i] == SEP_SLASH || n[i] == SEP_BACKSLASH {
            return false;
        }
        i += 1;
    }
    proof {
        if n@ == seq![DOT] {
            assert(n@.len() == 1 && n@[0] == DOT);
        }
        if n@ == seq![DOT, DOT] {
            assert(n@.len() == 2 && n@[0] == DOT && n@[1] == DOT);
        }
    }
    true
}

/// The byte `b`.
pub const LOWER_B: u8 = 98;
/// The byte `a`.
pub const LOWER_A: u8 = 97;
/// The byte `k`.
pub const LOWER_K: u8 = 107;

/// The reversible suffix `.bak` appended to a disabled file's name.
pub open spec fn bak_suffix() -> Seq<u8> {
    seq![DOT, LOWER_B, LOWER_A, LOWER_K]
}

/// The extension name `bak` alone.
pub open spec fn bak_ext() -> Seq<u8> {
    seq![LOWER_B, LOWER_A, LOWER_K]
}

/// Index of the last `.` in a name, or -1 when there is none.
pub open spec fn spec_last_dot(n: Seq<u8>) -> int
    decreases n.len(),
{
    if n.len() == 0 {
        -1
    } else if n.last() == DOT {
        n.len() - 1
    } else {
        spec_last_dot(n.drop_last())
    }
}

/// The extension of a file name: what follows the last `.`, unless the
/// name has no `.` or only a leading one.
pub open spec fn spec_ext_of(n: Seq<u8>) -> Option<Seq<u8>> {
    let i = spec_last_dot(n);
    if i <= 0 {
        Option::None
    } else {
        Option::Some(n.skip(i + 1))
    }
}

/// The stem of a file name: what precedes its extension.
pub open spec fn spec_stem_of(n: Seq<u8>) -> Seq<u8> {
    let i = spec_last_dot(n);
    if i <= 0 {
        n
    } else {
        n.take(i)
    }
}

/// `n` ends with `suffix`.
pub open spec fn sp_ends_with(n: Seq<u8>, suffix: Seq<u8>) -> bool {
    suffix.len() <= n.len() && n.skip(n.len() - suffix.len()) == suffix
}

/// The file is renamed when the mod is disabled: its extension is the
/// configured target extension.
pub open spec fn sp_name_disables(n: Seq<u8>, ext: Seq<u8>) -> bool {
    spec_ext_of(n) == Option::Some(ext)
}

/// The file is renamed when the mod is enabled: its extension is the
/// reversible suffix and its stem still ends with the target extension.
pub open spec fn sp_name_enables(n: Seq<u8>, ext: Seq<u8>) -> bool {
    &&& spec_ext_of(n) == Option::Some(bak_ext())
    &&& sp_ends_with(spec_stem_of(n), seq![DOT] + ext)
}

/// The file is renamed by a pass in the given direction.
pub open spec fn sp_name_toggles(n: Seq<u8>, enable: bool, ext: Seq<u8>) -> bool {
    if enable {
        sp_name_enables(n, ext)
    } else {
        sp_name_disables(n, ext)
    }
}

/// The file's name after the pass: the suffix is stripped on enable and
/// appended on disable.
pub open spec fn sp_name_toggled(n: Seq<u8>, enable: bool, ext: Seq<u8>) -> Seq<u8> {
    if enable {
        n.take(n.len() - 4)
    } else {
        n + bak_suffix()
    }
}

/// Index of the last `.` in a concrete name.
#[verifier::loop_isolation(false)]
pub fn last_dot(n: &Vec<u8>) -> (r: Option<usize>)
    ensures
        match r {
            Some(i) => spec_last_dot(n@) == i as int,
            None => spec_last_dot(n@) < 0,
        },
{
    let mut i: usize = n.len();
    proof {
        assert(n@.take(n@.len() as int) =~= n@);
    }
    while i > 0
        invariant
            0 <= i <= n@.len(),
            spec_last_dot(n@) == spec_last_dot(n@.take(i as int)),
        decreases i,
    {
        if n[i - 1] == DOT {
            proof {
                assert(n@.take(i as int).last() == DOT);
            }
            return Some(i - 1);
        }
        proof {
            assert(n@.take(i as int).drop_last() =~= n@.take(i - 1));
        }
        i -= 1;
    }
    proof {
        assert(n@.take(0).len() == 0);
    }
    None
}

/// Decides [`sp_ends_with`] for concrete byte strings, the second
/// argument given as a dot followed by `ext`.
#[verifier::loop_isolation(false)]
fn ends_with_dot_ext(n: &Vec<u8>, ext: &Vec<u8>) -> (r: bool)
    ensures
        r == sp_ends_with(n@, seq![DOT] + ext@),
{
    if n.len() <= ext.len() {
        return false;
    }
    let base = n.len() - ext.len() - 1;
    if n[base] != DOT {
        proof {
            assert(n@.skip(base as int)[0] == n@[base as int]);
            assert((seq![DOT] + ext@)[0] == DOT);
        }
        return false;
    }
    let mut i: usize = 0;
    while i < ext.len()
        invariant
            0 <= i <= ext@.len(),
            n@.len() == base + ext@.len() + 1,
            forall|j: int| 0 <= j < i ==> n@[base + 1 + j] == ext@[j],
        decreases ext@.len() - i,
    {
        if n[base + 1 + i] != ext[i] {
            proof {
                assert(n@.skip(base as int)[1 + i] == n@[base + 1 + i]);
                assert((seq![DOT] + ext@)[1 + i] == ext@[i as int]);
            }
            return false;
        }
        i += 1;
    }
    proof {
        assert(n@.skip(base as int) =~= seq![DOT] + ext@);
    }
    true
}

/// Decides [`sp_name_toggles`] for a concrete name.
#[verifier::loop_isolation(false)]
pub fn name_toggles(n: &Vec<u8>, enable: bool, ext: &Vec<u8>) -> (r: bool)
    ensures
        r == sp_name_toggles(n@, enable, ext@),
{
    let i = match last_dot(n) {
        Some(i) => i,
        None => {
            return false;
        },
    };
    if i == 0 {
        return false;
    }
    proof {
        lemma_last_dot_is_dot(n@);
    }
    if enable {
        // extension must be the suffix `bak`
        proof {
            assert(n@.skip(i + 1).len() == n@.len() - i - 1);
        }
        if !(n.len() - i == 4 && n[i + 1] == LOWER_B && n[i + 2] == LOWER_A && n[i + 3]
            == LOWER_K) {
            proof {
                if spec_ext_of(n@) == Option::Some(bak_ext()) {
                    assert(n@.skip(i + 1).len() == 3);
                    assert(n@.skip(i + 1)[0] == n@[i + 1]);
                    assert(n@.skip(i + 1)[1] == n@[i + 2]);
                    assert(n@.skip(i + 1)[2] == n@[i + 3]);
                }
            }
            return false;
        }
        proof {
            assert(n@.skip(i + 1) =~= bak_ext());
        }
        // the stem must still end with the target extension
        let mut stem: Vec<u8> = Vec::new();
        let mut k: usize = 0;
        while k < i
            invariant
                0 <= k <= i < n@.len(),
                stem@.len() == k,
                forall|j: int| 0 <= j < k ==> stem@[j] == n@[j],
            decreases i - k,
        {
            stem.push(n[k]);
            k += 1;
        }
        proof {
            assert(stem@ =~= n@.take(i as int));
            assert(spec_stem_of(n@) == n@.take(i as int));
        }
        ends_with_dot_ext(&stem, ext)
    } else {
        // the extension must equal the target extension
        if n.len() - i - 1 != ext.len() {
            proof {
                if spec_ext_of(n@) == Option::Some(ext@) {
                    assert(n@.skip(i + 1).len() == ext@.len());
                }
            }
            return false;
        }
        let mut k: usize = 0;
        while k < ext.len()
            invariant
                0 <= k <= ext@.len(),
                n@.len() == i + 1 + ext@.len(),
                0 <= i < n@.len(),
                forall|j: int| 0 <= j < k ==> n@[i + 1 + j] == ext@[j],
            decreases ext@.len() - k,
        {
            if n[i + 1 + k] != ext[k] {
                proof {
                    if spec_ext_of(n@) == Option::Some(ext@) {
                        assert(n@.skip(i + 1)[k as int] == n@[i + 1 + k]);
                    }
                }
                return false;
            }
            k += 1;
        }
        proof {
            assert(n@.skip(i + 1) =~= ext@);
        }
        true
    }
}

/// Applies [`sp_name_toggled`] to a concrete name.
#[verifier::loop_isolation(false)]
pub fn name_toggled(n: &Vec<u8>, enable: bool, ext: &Vec<u8>) -> (r: Vec<u8>)
    requires
        sp_name_toggles(n@, enable, ext@),
    ensures
        r@ == sp_name_toggled(n@, enable, ext@),
{
    if enable {
        proof {
            lemma_enables_shape(n@, ext@);
        }
        let mut r: Vec<u8> = Vec::new();
        let mut k: usize = 0;
        let stop = n.len() - 4;
        while k < stop
            invariant
                0 <= k <= stop,
                stop == n@.len() - 4,
                r@.len() == k,
                forall|j: int| 0 <= j < k ==> r@[j] == n@[j],
            decreases stop - k,
        {
            r.push(n[k]);
            k += 1;
        }
        proof {
            assert(r@ =~= n@.take(n@.len() - 4));
        }
        r
    } else {
        let mut r: Vec<u8> = Vec::new();
        let mut k: usize = 0;
        while k < n.len()
            invariant
                0 <= k <= n@.len(),
                r@.len() == k,
                forall|j: int| 0 <= j < k ==> r@[j] == n@[j],
            decreases n@.len() - k,
        {
            r.push(n[k]);
            k += 1;
        }
        r.push(DOT);
        r.push(LOWER_B);
        r.push(LOWER_A);
        r.push(LOWER_K);
        proof {
            assert(r@ =~= n@ + bak_suffix());
        }
        r
    }
}

/// A name renamed by the enable pass carries the suffix: its last four
/// bytes are the dot and `bak`, after a nonempty stem.
pub proof fn lemma_enables_shape(n: Seq<u8>, ext: Seq<u8>)
    requires
        sp_name_enables(n, ext),
    ensures
        n.len() >= 5,
        spec_last_dot(n) == n.len() - 4,
        n.skip(n.len() - 4) == bak_suffix(),
        spec_stem_of(n) == n.take(n.len() - 4),
{
    let i = spec_last_dot(n);
    lemma_last_dot_is_dot(n);
    assert(n.skip(i + 1) == bak_ext());
    assert(n.skip(i + 1).len() == 3);
    assert(i == n.len() - 4);
    assert(n[i] == DOT);
    assert(n.skip(n.len() - 4) =~= bak_suffix()) by {
        assert(n.skip(n.len() - 4)[0] == n[i]);
        assert(n.skip(n.len() - 4)[1] == n.skip(i + 1)[0]);
        assert(n.skip(n.len() - 4)[2] == n.skip(i + 1)[1]);
        assert(n.skip(n.len() - 4)[3] == n.skip(i + 1)[2]);
    }
    assert(sp_ends_with(spec_stem_of(n), seq![DOT] + ext));
    assert(spec_stem_of(n).len() >= ext.len() + 1);
    assert(n.take(i).len() >= 1);
}

/// The byte at the index that `spec_last_dot` gives is a dot.
pub proof fn lemma_last_dot_is_dot(n: Seq<u8>)
    requires
        spec_last_dot(n) >= 0,
    ensures
        spec_last_dot(n) < n.len(),
        n[spec_last_dot(n)] == DOT,
    decreases n.len(),
{
    if n.len() > 0 && n.last() != DOT {
        lemma_last_dot_is_dot(n.drop_last());
        assert(n.drop_last()[spec_last_dot(n.drop_last())] == n[spec_last_dot(n)]);
    }
}

/// Appending the reversible suffix to a resource file's name yields a
/// name that the enable pass recognises, and stripping it again gives
/// back the original name.
pub proof fn lemma_disable_then_enable(n: Seq<u8>, ext: Seq<u8>)
    requires
        sp_name_disables(n, ext),
    ensures
        sp_name_enables(sp_name_toggled(n, false, ext), ext),
        sp_name_toggled(sp_name_toggled(n, false, ext), true, ext) == n,
{
    let i0 = spec_last_dot(n);
    lemma_last_dot_is_dot(n);
    let d = n + bak_suffix();
    assert(sp_name_toggled(n, false, ext) == d);
    assert(spec_last_dot(d) == n.len()) by {
        let d1 = n + seq![DOT, LOWER_B, LOWER_A];
        let d2 = n + seq![DOT, LOWER_B];
        let d3 = n + seq![DOT];
        assert(d.len() == n.len() + 4);
        assert(d.last() == LOWER_K);
        assert(d.drop_last() =~= d1);
        assert(spec_last_dot(d) == spec_last_dot(d1));
        assert(d1.last() == LOWER_A);
        assert(d1.drop_last() =~= d2);
        assert(spec_last_dot(d1) == spec_last_dot(d2));
        assert(d2.last() == LOWER_B);
        assert(d2.drop_last() =~= d3);
        assert(spec_last_dot(d2) == spec_last_dot(d3));
        assert(d3.last() == DOT);
        assert(spec_last_dot(d3) == n.len());
    }
    assert(spec_ext_of(d) == Option::Some(bak_ext())) by {
        assert(d.skip(n.len() as int + 1) =~= bak_ext());
    }
    assert(spec_stem_of(d) == n) by {
        assert(d.take(n.len() as int) =~= n);
    }
    assert(sp_ends_with(n, seq![DOT] + ext)) by {
        assert(n.skip(i0 + 1).len() == ext.len());
        assert(n.len() - (ext.len() + 1) == i0);
        assert(n.skip(i0) =~= seq![DOT] + ext) by {
            assert(n.skip(i0)[0] == n[i0]);
            assert(forall|j: int|
                1 <= j < n.skip(i0).len() ==> n.skip(i0)[j] == n.skip(i0 + 1)[j - 1]);
            assert(forall|j: int|
                1 <= j < (seq![DOT] + ext).len() ==> (seq![DOT] + ext)[j] == ext[j - 1]);
        }
    }
    assert(sp_name_enables(d, ext));
    assert(sp_name_toggled(d, true, ext) =~= n);
}

} // verus!
