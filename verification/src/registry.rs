//! The registry of tracked paths as a value in memory: an ordered set of
//! absolute paths.
//!
//! A registry is described by the set of paths that it tracks. Its listing is
//! that set in ascending lexicographic order, each path once.
//!
//! The registry on disk is the store's, and its table is the database's
//! work, of which nothing is proved. The store uses this module for what it
//! decides itself: it lists the rows that the database returned with
//! [`Registry::from_rows`] and [`Registry::list`], and takes what a pruning
//! removes from [`Registry::prune`]. [`Registry::add`],
//! [`Registry::remove`] and [`Registry::contains`] say what tracking a path
//! and letting it go mean, and the lemmas on adding twice and on removing an
//! absent path are lemmas of this value in memory; they say nothing of what
//! the database keeps.

use vstd::prelude::*;
use crate::error::TrackError;
use crate::order::{
    copy_bytes, lemma_lex_asymmetric, lemma_lex_irreflexive, lemma_lex_transitive, lex_lt,
    order_of, Order,
};
use crate::path::{is_absolute, paths_view, starts_at_root};

verus! {

/// A list of paths ascends strictly: each path comes before all that follow
/// it, so none occurs twice.
pub open spec fn ascending(list: Seq<Seq<u8>>) -> bool {
    forall|i: int, j: int| 0 <= i < j < list.len() ==> lex_lt(list[i], list[j])
}

/// `list` is the listing of the set `members`: the paths of the set, each
/// once, in ascending order.
pub open spec fn lists(list: Seq<Seq<u8>>, members: Set<Seq<u8>>) -> bool {
    ascending(list) && list.to_set() == members
}

/// What adding a path to the registry did.
#[derive(Clone, Copy, Debug, PartialEq, Eq, Structural)]
pub enum AddOutcome {
    /// The path was not tracked before, and is now.
    Added,
    /// The path was tracked already. The registry is as it was.
    AlreadyTracked,
}

/// What was found of a tracked path on the filesystem.
#[derive(Debug, PartialEq, Eq)]
pub struct PathStatus {
    pub path: Vec<u8>,
    /// Whether the path exists and can be reached.
    pub exists: bool,
}

/// The paths that a list of findings reports as gone.
pub open spec fn gone(statuses: Seq<PathStatus>) -> Set<Seq<u8>> {
    Set::new(
        |p: Seq<u8>|
            exists|i: int|
                0 <= i < statuses.len() && (#[trigger] statuses[i]).path@ == p
                    && !statuses[i].exists,
    )
}

/// In an ascending list the paths after a position differ from the path at it.
pub proof fn lemma_ascending_distinct(list: Seq<Seq<u8>>, i: int, j: int)
    requires
        ascending(list),
        0 <= i < list.len(),
        0 <= j < list.len(),
        list[i] == list[j],
    ensures
        i == j,
{
    lemma_lex_irreflexive(list[i]);
}

/// A set has one listing only: two ascending lists of the same paths are equal.
pub proof fn lemma_listing_unique(a: Seq<Seq<u8>>, b: Seq<Seq<u8>>)
    requires
        ascending(a),
        ascending(b),
        a.to_set() == b.to_set(),
    ensures
        a == b,
    decreases a.len(),
{
    if a.len() == 0 {
        if b.len() > 0 {
            assert(b.to_set().contains(b[0]));
            assert(a.contains(b[0]));
        }
        assert(a =~= b);
    } else if b.len() == 0 {
        assert(a.to_set().contains(a[0]));
        assert(b.contains(a[0]));
    } else {
        let x = a.last();
        let y = b.last();
        assert(a.to_set().contains(x));
        assert(b.contains(x));
        assert(b.to_set().contains(y));
        assert(a.contains(y));
        let i = choose|i: int| 0 <= i < b.len() && b[i] == x;
        let j = choose|j: int| 0 <= j < a.len() && a[j] == y;
        if x != y {
            assert(i < b.len() - 1);
            assert(j < a.len() - 1);
            assert(lex_lt(x, y));
            assert(lex_lt(y, x));
            lemma_lex_asymmetric(x, y);
        }
        let a0 = a.drop_last();
        let b0 = b.drop_last();
        assert forall|p: Seq<u8>| a0.to_set().contains(p) <==> b0.to_set().contains(p) by {
            if a0.contains(p) {
                let k = choose|k: int| 0 <= k < a0.len() && a0[k] == p;
                assert(a[k] == p);
                assert(a.to_set().contains(p));
                assert(b.contains(p));
                let m = choose|m: int| 0 <= m < b.len() && b[m] == p;
                if m == b.len() - 1 {
                    lemma_ascending_distinct(a, k, a.len() - 1);
                }
                assert(b0[m] == p);
            }
            if b0.contains(p) {
                let k = choose|k: int| 0 <= k < b0.len() && b0[k] == p;
                assert(b[k] == p);
                assert(b.to_set().contains(p));
                assert(a.contains(p));
                let m = choose|m: int| 0 <= m < a.len() && a[m] == p;
                if m == a.len() - 1 {
                    lemma_ascending_distinct(b, k, b.len() - 1);
                }
                assert(a0[m] == p);
            }
        }
        assert(a0.to_set() =~= b0.to_set());
        lemma_listing_unique(a0, b0);
        assert(a =~= a0.push(x));
        assert(b =~= b0.push(y));
    }
}

/// Adding a path twice is adding it once: the listing after the second add is
/// the listing after the first, and it holds the path at one position only.
pub proof fn lemma_add_twice(
    members: Set<Seq<u8>>,
    p: Seq<u8>,
    once: Seq<Seq<u8>>,
    twice: Seq<Seq<u8>>,
)
    requires
        lists(once, members.insert(p)),
        lists(twice, members.insert(p).insert(p)),
    ensures
        twice == once,
        exists|i: int| 0 <= i < once.len() && once[i] == p,
        forall|i: int, j: int|
            0 <= i < once.len() && 0 <= j < once.len() && once[i] == p && once[j] == p ==> i == j,
{
    assert(members.insert(p).insert(p) =~= members.insert(p));
    lemma_listing_unique(once, twice);
    assert(once.to_set().contains(p));
    assert(once.contains(p));
    assert forall|i: int, j: int|
        0 <= i < once.len() && 0 <= j < once.len() && once[i] == p && once[j] == p implies i
        == j by {
        lemma_ascending_distinct(once, i, j);
    }
}

/// The listing does not depend on the order in which paths were added, nor on
/// how often: two lists of additions that name the same paths give one listing.
pub proof fn lemma_listing_ignores_order(
    first: Seq<Seq<u8>>,
    second: Seq<Seq<u8>>,
    a: Seq<Seq<u8>>,
    b: Seq<Seq<u8>>,
)
    requires
        first.to_set() == second.to_set(),
        lists(a, first.to_set()),
        lists(b, second.to_set()),
    ensures
        a == b,
        ascending(a),
{
    lemma_listing_unique(a, b);
}

/// Removing a path that is not tracked leaves the listing as it was.
pub proof fn lemma_remove_absent(
    members: Set<Seq<u8>>,
    p: Seq<u8>,
    before: Seq<Seq<u8>>,
    after: Seq<Seq<u8>>,
)
    requires
        !members.contains(p),
        lists(before, members),
        lists(after, members.remove(p)),
    ensures
        after == before,
{
    assert(members.remove(p) =~= members);
    lemma_listing_unique(before, after);
}

/// The findings tell the truth about the filesystem, and say something of
/// every tracked path.
pub open spec fn reports(
    statuses: Seq<PathStatus>,
    members: Set<Seq<u8>>,
    on_disk: Set<Seq<u8>>,
) -> bool {
    &&& forall|i: int|
        0 <= i < statuses.len() ==> (#[trigger] statuses[i]).exists == on_disk.contains(
            statuses[i].path@,
        )
    &&& forall|p: Seq<u8>| #[trigger]
        members.contains(p) ==> exists|i: int|
            0 <= i < statuses.len() && (#[trigger] statuses[i]).path@ == p
}

/// Pruning on true findings removes exactly the tracked paths that are not on
/// disk, and keeps exactly those that are.
pub proof fn lemma_prune_exact(
    members: Set<Seq<u8>>,
    statuses: Seq<PathStatus>,
    on_disk: Set<Seq<u8>>,
)
    requires
        reports(statuses, members, on_disk),
    ensures
        members.difference(gone(statuses)) == members.intersect(on_disk),
        members.intersect(gone(statuses)) == members.difference(on_disk),
{
    assert forall|p: Seq<u8>| members.contains(p) implies (gone(statuses).contains(p)
        <==> !on_disk.contains(p)) by {
        let i = choose|i: int| 0 <= i < statuses.len() && (#[trigger] statuses[i]).path@ == p;
        if gone(statuses).contains(p) {
            let j = choose|j: int|
                0 <= j < statuses.len() && (#[trigger] statuses[j]).path@ == p
                    && !statuses[j].exists;
        } else {
            assert(statuses[i].exists);
        }
    }
    assert(members.difference(gone(statuses)) =~= members.intersect(on_disk));
    assert(members.intersect(gone(statuses)) =~= members.difference(on_disk));
}

/// Pruning twice while the filesystem stays as it is removes nothing the
/// second time: no path is returned, and the registry keeps what the first
/// pruning left.
pub proof fn lemma_prune_twice(
    members: Set<Seq<u8>>,
    first: Seq<PathStatus>,
    second: Seq<PathStatus>,
    on_disk: Set<Seq<u8>>,
    removed: Seq<Seq<u8>>,
)
    requires
        reports(first, members, on_disk),
        reports(second, members.difference(gone(first)), on_disk),
        lists(removed, members.difference(gone(first)).intersect(gone(second))),
    ensures
        removed.len() == 0,
        members.difference(gone(first)).difference(gone(second)) == members.difference(
            gone(first),
        ),
{
    let left = members.difference(gone(first));
    lemma_prune_exact(members, first, on_disk);
    lemma_prune_exact(left, second, on_disk);
    assert(left.intersect(gone(second)) =~= Set::<Seq<u8>>::empty());
    assert(left.difference(gone(second)) =~= left);
    if removed.len() > 0 {
        assert(removed.to_set().contains(removed[0]));
    }
}

/// After a pruning on true findings, findings that are as true and speak of
/// what is left report nothing as gone: a second pruning has nothing to
/// remove.
pub proof fn lemma_second_prune_finds_nothing(
    members: Set<Seq<u8>>,
    first: Seq<PathStatus>,
    second: Seq<PathStatus>,
    on_disk: Set<Seq<u8>>,
)
    requires
        reports(first, members, on_disk),
        forall|i: int|
            0 <= i < second.len() ==> (#[trigger] second[i]).exists == on_disk.contains(
                second[i].path@,
            ),
        forall|i: int|
            0 <= i < second.len() ==> members.difference(gone(first)).contains(
                (#[trigger] second[i]).path@,
            ),
    ensures
        gone(second) == Set::<Seq<u8>>::empty(),
{
    lemma_prune_exact(members, first, on_disk);
    assert forall|p: Seq<u8>| !gone(second).contains(p) by {
        if gone(second).contains(p) {
            let i = choose|i: int|
                0 <= i < second.len() && (#[trigger] second[i]).path@ == p && !second[i].exists;
            assert(members.difference(gone(first)).contains(second[i].path@));
            assert(members.intersect(on_disk).contains(p));
        }
    }
    assert(gone(second) =~= Set::<Seq<u8>>::empty());
}

/// Putting a path into an ascending list at the place where the order wants
/// it gives the listing of the set with that path added.
proof fn lemma_insert_lists(list: Seq<Seq<u8>>, k: int, p: Seq<u8>)
    requires
        ascending(list),
        0 <= k <= list.len(),
        forall|i: int| 0 <= i < k ==> lex_lt(#[trigger] list[i], p),
        k < list.len() ==> lex_lt(p, list[k]),
    ensures
        lists(list.insert(k, p), list.to_set().insert(p)),
        !list.contains(p),
{
    let out = list.insert(k, p);
    assert forall|i: int| k <= i < list.len() implies lex_lt(p, #[trigger] list[i]) by {
        if i > k {
            lemma_lex_transitive(p, list[k], list[i]);
        }
    }
    assert forall|i: int, j: int| 0 <= i < j < out.len() implies lex_lt(out[i], out[j]) by {
        if j < k {
        } else if j == k {
            assert(out[i] == list[i]);
        } else if i < k {
            assert(out[j] == list[j - 1]);
            lemma_lex_transitive(list[i], p, list[j - 1]);
        } else if i == k {
            assert(out[j] == list[j - 1]);
        } else {
            assert(out[i] == list[i - 1]);
            assert(out[j] == list[j - 1]);
        }
    }
    assert forall|x: Seq<u8>| out.to_set().contains(x) <==> list.to_set().insert(p).contains(
        x,
    ) by {
        if out.contains(x) {
            let m = choose|m: int| 0 <= m < out.len() && out[m] == x;
            if m < k {
                assert(list[m] == x);
            } else if m > k {
                assert(list[m - 1] == x);
            }
        }
        if list.contains(x) {
            let m = choose|m: int| 0 <= m < list.len() && list[m] == x;
            if m < k {
                assert(out[m] == x);
            } else {
                assert(out[m + 1] == x);
            }
        }
        if x == p {
            assert(out[k] == x);
        }
    }
    assert(out.to_set() =~= list.to_set().insert(p));
    if list.contains(p) {
        let m = choose|m: int| 0 <= m < list.len() && list[m] == p;
        lemma_lex_irreflexive(p);
    }
}

/// Taking the path at a position out of an ascending list gives the listing
/// of the set without that path.
proof fn lemma_remove_lists(list: Seq<Seq<u8>>, k: int)
    requires
        ascending(list),
        0 <= k < list.len(),
    ensures
        lists(list.remove(k), list.to_set().remove(list[k])),
{
    let out = list.remove(k);
    let p = list[k];
    assert forall|i: int, j: int| 0 <= i < j < out.len() implies lex_lt(out[i], out[j]) by {
        let i0 = if i < k { i } else { i + 1 };
        let j0 = if j < k { j } else { j + 1 };
        assert(out[i] == list[i0]);
        assert(out[j] == list[j0]);
    }
    assert forall|x: Seq<u8>| out.to_set().contains(x) <==> list.to_set().remove(p).contains(
        x,
    ) by {
        if out.contains(x) {
            let m = choose|m: int| 0 <= m < out.len() && out[m] == x;
            let m0 = if m < k { m } else { m + 1 };
            assert(list[m0] == x);
            if x == p {
                lemma_ascending_distinct(list, m0, k);
            }
        }
        if list.contains(x) && x != p {
            let m = choose|m: int| 0 <= m < list.len() && list[m] == x;
            if m < k {
                assert(out[m] == x);
            } else {
                assert(out[m - 1] == x);
            }
        }
    }
    assert(out.to_set() =~= list.to_set().remove(p));
}

/// A path that comes after all paths of an ascending list can be put at its
/// end, and the list then lists the set with that path added.
proof fn lemma_push_lists(list: Seq<Seq<u8>>, p: Seq<u8>)
    requires
        ascending(list),
        forall|i: int| 0 <= i < list.len() ==> lex_lt(#[trigger] list[i], p),
    ensures
        lists(list.push(p), list.to_set().insert(p)),
{
    lemma_insert_lists(list, list.len() as int, p);
    assert(list.insert(list.len() as int, p) =~= list.push(p));
}

/// The paths among the first `n` of a list.
pub open spec fn listed_before(list: Seq<Seq<u8>>, n: int) -> Set<Seq<u8>> {
    list.subrange(0, n).to_set()
}

/// One more path of the list adds that path to the set.
proof fn lemma_listed_before_next(list: Seq<Seq<u8>>, n: int)
    requires
        0 <= n < list.len(),
    ensures
        listed_before(list, n + 1) == listed_before(list, n).insert(list[n]),
{
    let a = list.subrange(0, n);
    let b = list.subrange(0, n + 1);
    assert(b =~= a.push(list[n]));
    a.lemma_push_to_set_commute(list[n]);
}

/// Tells whether a list of findings reports a path as gone.
fn reported_gone(statuses: &Vec<PathStatus>, path: &Vec<u8>) -> (r: bool)
    ensures
        r == gone(statuses@).contains(path@),
{
    let mut i: usize = 0;
    while i < statuses.len()
        invariant
            i <= statuses.len(),
            forall|j: int|
                0 <= j < i ==> !((#[trigger] statuses[j]).path@ == path@ && !statuses[j].exists),
        decreases statuses.len() - i,
    {
        if !statuses[i].exists && order_of(&statuses[i].path, path) == Order::Equal {
            return true;
        }
        i += 1;
    }
    false
}

/// Tells whether the findings report no path as gone.
pub fn none_gone(statuses: &Vec<PathStatus>) -> (r: bool)
    ensures
        r <==> gone(statuses@) == Set::<Seq<u8>>::empty(),
{
    let mut i: usize = 0;
    while i < statuses.len()
        invariant
            i <= statuses.len(),
            forall|j: int| 0 <= j < i ==> (#[trigger] statuses[j]).exists,
        decreases statuses.len() - i,
    {
        if !statuses[i].exists {
            assert(gone(statuses@).contains(statuses[i as int].path@));
            return false;
        }
        i += 1;
    }
    assert(gone(statuses@) =~= Set::<Seq<u8>>::empty());
    true
}

/// An ordered set of paths, held in memory.
pub struct Registry {
    paths: Vec<Vec<u8>>,
}

impl View for Registry {
    type V = Seq<Seq<u8>>;

    /// The registry's listing.
    closed spec fn view(&self) -> Seq<Seq<u8>> {
        paths_view(self.paths@)
    }
}

impl Registry {
    /// The registry is well formed: its listing ascends strictly.
    pub open spec fn wf(&self) -> bool {
        ascending(self@)
    }

    /// The set of paths that the registry tracks.
    pub open spec fn members(&self) -> Set<Seq<u8>> {
        self@.to_set()
    }

    /// An empty registry.
    pub fn new() -> (r: Registry)
        ensures
            r.wf(),
            r@ == Seq::<Seq<u8>>::empty(),
            r.members() == Set::<Seq<u8>>::empty(),
    {
        let r = Registry { paths: Vec::new() };
        assert(r@ =~= Seq::<Seq<u8>>::empty());
        assert(r.members() =~= Set::<Seq<u8>>::empty());
        r
    }

    /// The number of tracked paths.
    pub fn len(&self) -> (n: usize)
        ensures
            n == self@.len(),
    {
        self.paths.len()
    }

    /// The position in the listing of the first path that does not come
    /// before `path`, and whether the path there is `path` itself.
    fn locate(&self, path: &Vec<u8>) -> (r: (usize, bool))
        requires
            self.wf(),
        ensures
            r.0 <= self@.len(),
            forall|i: int| 0 <= i < r.0 ==> lex_lt(#[trigger] self@[i], path@),
            r.1 ==> r.0 < self@.len() && self@[r.0 as int] == path@,
            !r.1 && r.0 < self@.len() ==> lex_lt(path@, self@[r.0 as int]),
            r.1 == self@.contains(path@),
    {
        let mut k: usize = 0;
        while k < self.paths.len()
            invariant
                k <= self.paths.len(),
                self.wf(),
                forall|i: int| 0 <= i < k ==> lex_lt(#[trigger] self@[i], path@),
            decreases self.paths.len() - k,
        {
            assert(self@[k as int] == self.paths[k as int]@);
            match order_of(&self.paths[k], path) {
                Order::Less => {},
                Order::Equal => {
                    return (k, true);
                },
                Order::Greater => {
                    proof {
                        self.lemma_absent_at(path@, k as int);
                    }
                    return (k, false);
                },
            }
            k += 1;
        }
        proof {
            self.lemma_absent_at(path@, k as int);
        }
        (k, false)
    }

    /// A path that the order places at `k`, where another path stands or the
    /// listing ends, is not tracked.
    proof fn lemma_absent_at(&self, p: Seq<u8>, k: int)
        requires
            self.wf(),
            0 <= k <= self@.len(),
            forall|i: int| 0 <= i < k ==> lex_lt(#[trigger] self@[i], p),
            k < self@.len() ==> lex_lt(p, self@[k]),
        ensures
            !self@.contains(p),
    {
        lemma_insert_lists(self@, k, p);
    }

    /// Tells whether a path is tracked.
    pub fn contains(&self, path: &Vec<u8>) -> (r: bool)
        requires
            self.wf(),
        ensures
            r == self.members().contains(path@),
    {
        self.locate(path).1
    }

    /// Puts a path into the set, and tells whether it was new.
    fn put(&mut self, path: &Vec<u8>) -> (added: bool)
        requires
            old(self).wf(),
        ensures
            final(self).wf(),
            final(self).members() == old(self).members().insert(path@),
            added == !old(self).members().contains(path@),
            !added ==> final(self)@ == old(self)@,
            added ==> final(self)@.len() == old(self)@.len() + 1,
    {
        let (k, found) = self.locate(path);
        if found {
            assert(self.members().insert(path@) =~= self.members());
            return false;
        }
        proof {
            lemma_insert_lists(self@, k as int, path@);
        }
        let ghost before = self.paths@;
        self.paths.insert(k, copy_bytes(path));
        assert(paths_view(self.paths@) =~= paths_view(before).insert(k as int, path@));
        true
    }

    /// The registry of the paths that a list holds, in whatever order and
    /// however often the list holds them.
    pub fn from_rows(rows: &Vec<Vec<u8>>) -> (r: Registry)
        ensures
            r.wf(),
            r.members() == paths_view(rows@).to_set(),
    {
        let mut r = Registry::new();
        let mut i: usize = 0;
        let ghost all = paths_view(rows@);
        assert(listed_before(all, 0) =~= Set::<Seq<u8>>::empty());
        while i < rows.len()
            invariant
                i <= rows.len(),
                all == paths_view(rows@),
                r.wf(),
                r.members() == listed_before(all, i as int),
            decreases rows.len() - i,
        {
            proof {
                lemma_listed_before_next(all, i as int);
            }
            r.put(&rows[i]);
            i += 1;
        }
        assert(all.subrange(0, all.len() as int) =~= all);
        r
    }

    /// Tracks a path. A path that is tracked already stays tracked once, and
    /// the caller is told so. A path that is not absolute is refused.
    pub fn add(&mut self, path: &Vec<u8>) -> (r: Result<AddOutcome, TrackError>)
        requires
            old(self).wf(),
        ensures
            final(self).wf(),
            match r {
                Ok(outcome) => {
                    &&& is_absolute(path@)
                    &&& final(self).members() == old(self).members().insert(path@)
                    &&& outcome == AddOutcome::AlreadyTracked <==> old(self).members().contains(
                        path@,
                    )
                    &&& outcome == AddOutcome::AlreadyTracked ==> final(self)@ == old(self)@
                    &&& outcome == AddOutcome::Added ==> final(self)@.len() == old(self)@.len() + 1
                },
                Err(e) => {
                    &&& !is_absolute(path@)
                    &&& final(self)@ == old(self)@
                    &&& e matches TrackError::PathResolution { path: refused }
                    &&& refused@ == path@
                },
            },
    {
        if !starts_at_root(path) {
            return Err(TrackError::PathResolution { path: copy_bytes(path) });
        }
        if self.put(path) {
            Ok(AddOutcome::Added)
        } else {
            Ok(AddOutcome::AlreadyTracked)
        }
    }

    /// Stops tracking a path, and tells whether it was tracked. Removing a
    /// path that is not tracked changes nothing.
    pub fn remove(&mut self, path: &Vec<u8>) -> (removed: bool)
        requires
            old(self).wf(),
        ensures
            final(self).wf(),
            removed == old(self).members().contains(path@),
            final(self).members() == old(self).members().remove(path@),
            !removed ==> final(self)@ == old(self)@,
            removed ==> final(self)@.len() == old(self)@.len() - 1,
    {
        let (k, found) = self.locate(path);
        if !found {
            assert(self.members().remove(path@) =~= self.members());
            return false;
        }
        proof {
            lemma_remove_lists(self@, k as int);
        }
        let ghost before = self.paths@;
        self.paths.remove(k);
        assert(paths_view(self.paths@) =~= paths_view(before).remove(k as int));
        true
    }

    /// Stops tracking every path that the findings report as gone, and
    /// returns those paths in ascending order. Paths that are reported to
    /// exist, and paths of which nothing is reported, stay.
    pub fn prune(&mut self, statuses: &Vec<PathStatus>) -> (removed: Vec<Vec<u8>>)
        requires
            old(self).wf(),
        ensures
            final(self).wf(),
            final(self).members() == old(self).members().difference(gone(statuses@)),
            lists(paths_view(removed@), old(self).members().intersect(gone(statuses@))),
    {
        let ghost all = self@;
        let ghost lost = gone(statuses@);
        let mut kept: Vec<Vec<u8>> = Vec::new();
        let mut removed: Vec<Vec<u8>> = Vec::new();
        let mut i: usize = 0;
        assert(listed_before(all, 0) =~= Set::<Seq<u8>>::empty());
        assert(paths_view(kept@).to_set() =~= listed_before(all, 0).difference(lost));
        assert(paths_view(removed@).to_set() =~= listed_before(all, 0).intersect(lost));
        while i < self.paths.len()
            invariant
                i <= self.paths.len(),
                all == self@,
                lost == gone(statuses@),
                ascending(all),
                ascending(paths_view(kept@)),
                ascending(paths_view(removed@)),
                paths_view(kept@).to_set() == listed_before(all, i as int).difference(lost),
                paths_view(removed@).to_set() == listed_before(all, i as int).intersect(lost),
                forall|k: int|
                    0 <= k < kept.len() && i < all.len() ==> lex_lt(
                        #[trigger] paths_view(kept@)[k],
                        all[i as int],
                    ),
                forall|k: int|
                    0 <= k < removed.len() && i < all.len() ==> lex_lt(
                        #[trigger] paths_view(removed@)[k],
                        all[i as int],
                    ),
            decreases self.paths.len() - i,
        {
            let path = &self.paths[i];
            let ghost p = all[i as int];
            assert(p == path@);
            let ghost kept_before = paths_view(kept@);
            let ghost removed_before = paths_view(removed@);
            proof {
                lemma_listed_before_next(all, i as int);
            }
            if reported_gone(statuses, path) {
                proof {
                    lemma_push_lists(removed_before, p);
                }
                removed.push(copy_bytes(path));
                assert(paths_view(removed@) =~= removed_before.push(p));
                assert(paths_view(removed@).to_set() =~= listed_before(all, i + 1).intersect(
                    lost,
                ));
                assert(paths_view(kept@).to_set() =~= listed_before(all, i + 1).difference(lost));
            } else {
                proof {
                    lemma_push_lists(kept_before, p);
                }
                kept.push(copy_bytes(path));
                assert(paths_view(kept@) =~= kept_before.push(p));
                assert(paths_view(kept@).to_set() =~= listed_before(all, i + 1).difference(lost));
                assert(paths_view(removed@).to_set() =~= listed_before(all, i + 1).intersect(
                    lost,
                ));
            }
            proof {
                if i + 1 < all.len() {
                    let q = all[i + 1];
                    assert(lex_lt(p, q));
                    assert forall|k: int| 0 <= k < kept.len() implies lex_lt(
                        #[trigger] paths_view(kept@)[k],
                        q,
                    ) by {
                        if k < kept_before.len() {
                            assert(paths_view(kept@)[k] == kept_before[k]);
                            lemma_lex_transitive(kept_before[k], p, q);
                        }
                    }
                    assert forall|k: int| 0 <= k < removed.len() implies lex_lt(
                        #[trigger] paths_view(removed@)[k],
                        q,
                    ) by {
                        if k < removed_before.len() {
                            assert(paths_view(removed@)[k] == removed_before[k]);
                            lemma_lex_transitive(removed_before[k], p, q);
                        }
                    }
                }
            }
            i += 1;
        }
        assert(all.subrange(0, all.len() as int) =~= all);
        self.paths = kept;
        removed
    }

    /// The tracked paths in ascending lexicographic order, each once.
    pub fn list(&self) -> (r: Vec<Vec<u8>>)
        requires
            self.wf(),
        ensures
            paths_view(r@) == self@,
            lists(paths_view(r@), self.members()),
    {
        let mut out: Vec<Vec<u8>> = Vec::new();
        let mut i: usize = 0;
        while i < self.paths.len()
            invariant
                i <= self.paths.len(),
                paths_view(out@) == self@.subrange(0, i as int),
            decreases self.paths.len() - i,
        {
            let ghost before = out@;
            out.push(copy_bytes(&self.paths[i]));
            assert(paths_view(out@) =~= paths_view(before).push(self@[i as int]));
            i += 1;
            assert(paths_view(out@) =~= self@.subrange(0, i as int));
        }
        assert(self@.subrange(0, self@.len() as int) =~= self@);
        out
    }
}

} // verus!
