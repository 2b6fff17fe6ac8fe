//! Selecting the regular files beneath the tracked roots.
//!
//! A root is walked depth first, parents before children, and each entry met
//! is recorded as a [`WalkItem`]. From such a listing the matcher keeps the
//! regular files and drops every directory named `.git` together with all
//! that lies beneath it.

use vstd::prelude::*;
use crate::error::TrackError;
use crate::order::copy_bytes;
use crate::path::paths_view;

verus! {

/// What kind of entry a walk met.
#[derive(Clone, Copy, Debug, PartialEq, Eq, Structural)]
pub enum EntryKind {
    /// A regular file.
    File,
    /// A directory.
    Directory,
    /// Anything else: a symbolic link that was not followed, a socket, a device.
    Other,
}

/// One entry of a walk.
#[derive(Debug, PartialEq, Eq)]
pub struct WalkItem {
    /// The entry's full path.
    pub path: Vec<u8>,
    /// The last component of the path.
    pub name: Vec<u8>,
    /// How far below the root the entry lies; the root itself has depth 0.
    pub depth: usize,
    pub kind: EntryKind,
}

/// A [`WalkItem`] as a mathematical value.
pub struct ItemView {
    pub path: Seq<u8>,
    pub name: Seq<u8>,
    pub depth: nat,
    pub kind: EntryKind,
}

impl View for WalkItem {
    type V = ItemView;

    open spec fn view(&self) -> ItemView {
        ItemView { path: self.path@, name: self.name@, depth: self.depth as nat, kind: self.kind }
    }
}

/// The items that a listing holds, in order.
pub open spec fn items_view(items: Seq<WalkItem>) -> Seq<ItemView> {
    items.map_values(|w: WalkItem| w@)
}

/// The name `.git`.
pub open spec fn git_name() -> Seq<u8> {
    seq![46u8, 103u8, 105u8, 116u8]
}

/// The exclusion rule: an entry is left out, with all beneath it, exactly when
/// it is a directory named `.git`.
pub open spec fn excluded(name: Seq<u8>, is_directory: bool) -> bool {
    is_directory && name == git_name()
}

/// The exclusion rule applied to an item of a walk.
pub open spec fn item_excluded(item: ItemView) -> bool {
    excluded(item.name, item.kind == EntryKind::Directory)
}

/// The excluded directory at position `j` has not been left when the walk
/// reaches position `i`: every item after `j` and before `i` lies deeper.
pub open spec fn open_until(items: Seq<ItemView>, j: int, i: int) -> bool {
    &&& item_excluded(items[j])
    &&& forall|k: int| j < k < i ==> (#[trigger] items[k]).depth > items[j].depth
}

/// The excluded directory at position `j` holds the item at position `i`.
pub open spec fn hides(items: Seq<ItemView>, j: int, i: int) -> bool {
    0 <= j < i && open_until(items, j, i + 1)
}

/// The item at position `i` lies beneath an excluded directory.
pub open spec fn shadowed(items: Seq<ItemView>, i: int) -> bool {
    exists|j: int| hides(items, j, i)
}

/// The item at position `i` is a match: a regular file that lies beneath no
/// excluded directory.
pub open spec fn selected(items: Seq<ItemView>, i: int) -> bool {
    items[i].kind == EntryKind::File && !shadowed(items, i)
}

/// The paths of the matches among the first `n` items, in the order of the walk.
pub open spec fn matches_upto(items: Seq<ItemView>, n: int) -> Seq<Seq<u8>>
    decreases n,
{
    if n <= 0 {
        Seq::empty()
    } else if selected(items, n - 1) {
        matches_upto(items, n - 1).push(items[n - 1].path)
    } else {
        matches_upto(items, n - 1)
    }
}

/// The paths of all matches of a listing, in the order of the walk.
pub open spec fn matched_paths(items: Seq<ItemView>) -> Seq<Seq<u8>> {
    matches_upto(items, items.len() as int)
}

/// Tells whether an entry is left out of walks and of cleaning: whether it is
/// a directory named `.git`.
pub fn is_excluded(name: &Vec<u8>, is_directory: bool) -> (r: bool)
    ensures
        r == excluded(name@, is_directory),
{
    if is_directory && name.len() == 4 {
        let r = name[0] == 46 && name[1] == 103 && name[2] == 105 && name[3] == 116;
        assert(r ==> name@ =~= git_name());
        r
    } else {
        false
    }
}

/// Selects the matches of one walk: the regular files that lie beneath no
/// directory named `.git`, in the order in which the walk met them.
pub fn select_matches(items: &Vec<WalkItem>) -> (r: Vec<Vec<u8>>)
    ensures
        paths_view(r@) == matched_paths(items_view(items@)),
{
    let ghost iv = items_view(items@);
    let mut out: Vec<Vec<u8>> = Vec::new();
    let mut barrier: Option<usize> = None;
    let ghost mut at: int = 0;
    let mut i: usize = 0;
    assert(paths_view(out@) =~= matches_upto(iv, 0));
    while i < items.len()
        invariant
            i <= items.len(),
            iv == items_view(items@),
            iv.len() == items.len(),
            paths_view(out@) == matches_upto(iv, i as int),
            match barrier {
                Some(d) => 0 <= at < i && open_until(iv, at, i as int) && !shadowed(iv, at)
                    && iv[at].depth == d,
                None => forall|j: int| 0 <= j < i ==> !open_until(iv, j, i as int),
            },
        decreases items.len() - i,
    {
        let item = &items[i];
        assert(iv[i as int] == item@);
        let hidden = match barrier {
            Some(d) => item.depth > d,
            None => false,
        };
        proof {
            if hidden {
                assert(hides(iv, at, i as int));
            } else {
                assert forall|j: int| !hides(iv, j, i as int) by {
                    if hides(iv, j, i as int) {
                        match barrier {
                            Some(d) => {
                                if j < at {
                                    assert(hides(iv, j, at));
                                } else if j > at {
                                    assert(iv[j].depth > d);
                                    assert(iv[i as int].depth > iv[j].depth);
                                } else {
                                    assert(iv[i as int].depth > d);
                                }
                            },
                            None => {
                                assert(open_until(iv, j, i as int));
                            },
                        }
                    }
                }
            }
            assert(shadowed(iv, i as int) == hidden);
        }
        if !hidden {
            if is_excluded(&item.name, item.kind == EntryKind::Directory) {
                barrier = Some(item.depth);
                proof {
                    at = i as int;
                }
            } else {
                barrier = None;
                proof {
                    let next = i as int + 1;
                    assert forall|j: int| 0 <= j < next implies !open_until(iv, j, next) by {
                        assert(!hides(iv, j, i as int));
                    }
                }
                if item.kind == EntryKind::File {
                    let ghost before = out@;
                    out.push(copy_bytes(&item.path));
                    assert(paths_view(out@) =~= paths_view(before).push(item.path@));
                }
            }
        }
        i += 1;
    }
    out
}

/// What walking one tracked root gave: the entries met, parents before
/// children, or the reason why the walk broke off.
#[derive(Debug, PartialEq, Eq)]
pub struct RootWalk {
    /// The tracked root.
    pub root: Vec<u8>,
    pub outcome: Result<Vec<WalkItem>, String>,
}

/// The matches that one root contributes.
pub open spec fn walk_matches(walk: RootWalk) -> Seq<Seq<u8>> {
    match walk.outcome {
        Ok(items) => matched_paths(items_view(items@)),
        Err(_) => Seq::empty(),
    }
}

/// The matches of the first `n` roots, root after root. Nothing is removed
/// where roots overlap: a file beneath two roots is listed twice.
pub open spec fn matches_of_roots(walks: Seq<RootWalk>, n: int) -> Seq<Seq<u8>>
    decreases n,
{
    if n <= 0 {
        Seq::empty()
    } else {
        matches_of_roots(walks, n - 1) + walk_matches(walks[n - 1])
    }
}

/// The walk at position `i` is the first that broke off.
pub open spec fn first_failure(walks: Seq<RootWalk>, i: int) -> bool {
    &&& 0 <= i < walks.len()
    &&& walks[i].outcome is Err
    &&& forall|j: int| 0 <= j < i ==> (#[trigger] walks[j]).outcome is Ok
}

/// Gathers the matched files of all tracked roots, in the order of the roots
/// and, within a root, of its walk. Where a walk broke off, the whole search
/// fails with an error that names the first such root.
pub fn find_matches(walks: &Vec<RootWalk>) -> (r: Result<Vec<Vec<u8>>, TrackError>)
    ensures
        match r {
            Ok(found) => {
                &&& forall|i: int| 0 <= i < walks.len() ==> (#[trigger] walks[i]).outcome is Ok
                &&& paths_view(found@) == matches_of_roots(walks@, walks.len() as int)
            },
            Err(e) => exists|i: int|
                {
                    &&& #[trigger] first_failure(walks@, i)
                    &&& e matches TrackError::Match { root, reason }
                    &&& root@ == walks[i].root@
                    &&& reason@ == walks[i].outcome->Err_0@
                },
        },
{
    let mut out: Vec<Vec<u8>> = Vec::new();
    let mut i: usize = 0;
    assert(paths_view(out@) =~= matches_of_roots(walks@, 0));
    while i < walks.len()
        invariant
            i <= walks.len(),
            forall|j: int| 0 <= j < i ==> (#[trigger] walks[j]).outcome is Ok,
            paths_view(out@) == matches_of_roots(walks@, i as int),
        decreases walks.len() - i,
    {
        let walk = &walks[i];
        match &walk.outcome {
            Ok(items) => {
                let mut found = select_matches(items);
                let ghost before = out@;
                let ghost added = found@;
                out.append(&mut found);
                assert(paths_view(out@) =~= paths_view(before) + paths_view(added));
            },
            Err(why) => {
                assert(first_failure(walks@, i as int));
                return Err(TrackError::Match { root: copy_bytes(&walk.root), reason: why.clone() });
            },
        }
        i += 1;
    }
    Ok(out)
}

} // verus!
