//! Paths as byte strings: what is absolute, what a path is relative to the
//! root of the filesystem, and where it lands beneath another directory.

use vstd::prelude::*;

verus! {

/// The byte that separates the components of a path.
pub const SEPARATOR: u8 = 47;

/// The byte strings that a list of paths holds, in order.
pub open spec fn paths_view(paths: Seq<Vec<u8>>) -> Seq<Seq<u8>> {
    paths.map_values(|p: Vec<u8>| p@)
}

/// A path is absolute when it begins with a separator.
pub open spec fn is_absolute(p: Seq<u8>) -> bool {
    p.len() > 0 && p[0] == SEPARATOR
}

/// A path without its leading separators: an absolute path made relative to
/// the root of the filesystem. A relative path is left as it is.
pub open spec fn relative_part(p: Seq<u8>) -> Seq<u8>
    decreases p.len(),
{
    if is_absolute(p) {
        relative_part(p.skip(1))
    } else {
        p
    }
}

/// A relative path names a file when it is not empty and does not end in a
/// separator.
pub open spec fn names_file(rel: Seq<u8>) -> bool {
    rel.len() > 0 && rel.last() != SEPARATOR
}

/// `rel` placed beneath `root`. A separator is put between the two unless
/// `root` is empty or already ends in one. An absolute `rel` is not placed
/// beneath anything: it stays what it is.
pub open spec fn joined(root: Seq<u8>, rel: Seq<u8>) -> Seq<u8> {
    if is_absolute(rel) {
        rel
    } else if root.len() == 0 || root.last() == SEPARATOR {
        root + rel
    } else {
        root.push(SEPARATOR) + rel
    }
}

/// The position of the last separator of a path, or -1 where it has none.
pub open spec fn last_separator(p: Seq<u8>) -> int
    decreases p.len(),
{
    if p.len() == 0 {
        -1
    } else if p.last() == SEPARATOR {
        p.len() - 1
    } else {
        last_separator(p.drop_last())
    }
}

/// The directory that holds a path: what stands before its last separator,
/// the root directory where that separator is the first byte, and the empty
/// path where there is no separator.
pub open spec fn parent_of(p: Seq<u8>) -> Seq<u8> {
    let k = last_separator(p);
    if k < 0 {
        Seq::empty()
    } else if k == 0 {
        p.subrange(0, 1)
    } else {
        p.subrange(0, k)
    }
}

/// The relative part of a path is what follows its leading separators.
pub proof fn lemma_relative_part_skips(p: Seq<u8>, k: int)
    requires
        0 <= k <= p.len(),
        forall|i: int| 0 <= i < k ==> p[i] == SEPARATOR,
    ensures
        relative_part(p) == relative_part(p.skip(k)),
    decreases k,
{
    if k == 0 {
        assert(p.skip(0) =~= p);
    } else {
        lemma_relative_part_skips(p, k - 1);
        let q = p.skip(k - 1);
        assert(is_absolute(q));
        assert(q.skip(1) =~= p.skip(k));
    }
}

/// The relative part of a path is never absolute, and is a tail of the path.
pub proof fn lemma_relative_part_is_relative(p: Seq<u8>)
    ensures
        !is_absolute(relative_part(p)),
        relative_part(p).len() <= p.len(),
        relative_part(p) == p.skip(p.len() - relative_part(p).len()),
    decreases p.len(),
{
    if is_absolute(p) {
        let q = p.skip(1);
        lemma_relative_part_is_relative(q);
        assert(q.skip(q.len() - relative_part(q).len()) =~= p.skip(
            p.len() - relative_part(q).len(),
        ));
    } else {
        assert(p.skip(0) =~= p);
    }
}

/// A relative path placed beneath a directory begins with that directory and
/// ends with the relative path.
pub proof fn lemma_joined_keeps_both(root: Seq<u8>, rel: Seq<u8>)
    requires
        !is_absolute(rel),
    ensures
        root.is_prefix_of(joined(root, rel)),
        rel.is_suffix_of(joined(root, rel)),
{
    let j = joined(root, rel);
    assert(j.subrange(0, root.len() as int) =~= root);
    assert(j.subrange(j.len() - rel.len(), j.len() as int) =~= rel);
}

/// Tells whether a path is absolute.
pub fn starts_at_root(p: &Vec<u8>) -> (r: bool)
    ensures
        r == is_absolute(p@),
{
    p.len() > 0 && p[0] == SEPARATOR
}

/// Makes an absolute path relative to the root of the filesystem by taking
/// its leading separators away. A path that is not absolute gives `None`.
pub fn strip_root(p: &Vec<u8>) -> (r: Option<Vec<u8>>)
    ensures
        match r {
            Some(rel) => is_absolute(p@) && rel@ == relative_part(p@),
            None => !is_absolute(p@),
        },
{
    if !starts_at_root(p) {
        return None;
    }
    let mut k: usize = 0;
    while k < p.len() && p[k] == SEPARATOR
        invariant
            k <= p.len(),
            forall|i: int| 0 <= i < k ==> p@[i] == SEPARATOR,
        decreases p.len() - k,
    {
        k += 1;
    }
    let mut rel: Vec<u8> = Vec::new();
    let mut i: usize = k;
    while i < p.len()
        invariant
            k <= i <= p.len(),
            rel@ == p@.subrange(k as int, i as int),
        decreases p.len() - i,
    {
        rel.push(p[i]);
        i += 1;
        assert(rel@ =~= p@.subrange(k as int, i as int));
    }
    proof {
        lemma_relative_part_skips(p@, k as int);
        assert(rel@ =~= p@.skip(k as int));
        assert(!is_absolute(p@.skip(k as int)));
    }
    Some(rel)
}

/// Places `rel` beneath `root`.
pub fn join(root: &Vec<u8>, rel: &Vec<u8>) -> (r: Vec<u8>)
    ensures
        r@ == joined(root@, rel@),
{
    let mut out: Vec<u8> = Vec::new();
    if !starts_at_root(rel) {
        let mut i: usize = 0;
        while i < root.len()
            invariant
                i <= root.len(),
                out@ == root@.subrange(0, i as int),
            decreases root.len() - i,
        {
            out.push(root[i]);
            i += 1;
            assert(out@ =~= root@.subrange(0, i as int));
        }
        assert(out@ =~= root@);
        if root.len() > 0 && root[root.len() - 1] != SEPARATOR {
            out.push(SEPARATOR);
        }
    }
    let ghost head = out@;
    let mut j: usize = 0;
    while j < rel.len()
        invariant
            j <= rel.len(),
            out@ == head + rel@.subrange(0, j as int),
        decreases rel.len() - j,
    {
        out.push(rel[j]);
        j += 1;
        assert(out@ =~= head + rel@.subrange(0, j as int));
    }
    assert(rel@.subrange(0, rel.len() as int) =~= rel@);
    assert(out@ =~= joined(root@, rel@));
    out
}

/// The directory that holds a path.
pub fn parent(p: &Vec<u8>) -> (r: Vec<u8>)
    ensures
        r@ == parent_of(p@),
{
    let mut k: usize = p.len();
    assert(p@.subrange(0, k as int) =~= p@);
    while k > 0 && p[k - 1] != SEPARATOR
        invariant
            k <= p.len(),
            last_separator(p@) == last_separator(p@.subrange(0, k as int)),
        decreases k,
    {
        proof {
            let q = p@.subrange(0, k as int);
            assert(q.drop_last() =~= p@.subrange(0, k - 1));
        }
        k -= 1;
    }
    proof {
        if k == 0 {
            assert(p@.subrange(0, 0).len() == 0);
        }
    }
    let end: usize = if k > 1 { k - 1 } else { k };
    let mut out: Vec<u8> = Vec::new();
    let mut i: usize = 0;
    while i < end
        invariant
            i <= end <= p.len(),
            out@ == p@.subrange(0, i as int),
        decreases end - i,
    {
        out.push(p[i]);
        i += 1;
        assert(out@ =~= p@.subrange(0, i as int));
    }
    assert(out@ =~= parent_of(p@));
    out
}

} // verus!
