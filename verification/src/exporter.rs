//! Laying the matched files out at a destination.
//!
//! The exporter decides what is to be done and leaves the doing to its
//! caller: which children of the destination directory are deleted first,
//! which file is copied where, and under which name a file enters an archive.
//! Every file keeps the path that it has relative to the root of the
//! filesystem.

use vstd::prelude::*;
use crate::error::TrackError;
use crate::matcher::{excluded, is_excluded};
use crate::order::copy_bytes;
use crate::path::{
    is_absolute, join, joined, names_file, parent, parent_of, paths_view, relative_part,
    strip_root, SEPARATOR,
};

verus! {

/// The form that an export takes.
#[derive(Clone, Copy, Debug, PartialEq, Eq, Structural)]
pub enum ExportKind {
    /// A directory tree that mirrors the matched files.
    Dir,
    /// A gzip-compressed tar archive.
    Tar,
    /// A zip archive. It can be asked for, and is not provided.
    Zip,
}

/// Tells whether `s` is the ASCII word `word`.
fn spells(s: &str, word: &str) -> (r: bool)
    requires
        word.is_ascii(),
    ensures
        r == (s@ == word@),
{
    if !s.is_ascii() {
        return false;
    }
    let n = s.unicode_len();
    if n != word.unicode_len() {
        return false;
    }
    let mut i: usize = 0;
    while i < n
        invariant
            i <= n,
            n == s@.len(),
            n == word@.len(),
            s.is_ascii(),
            word.is_ascii(),
            forall|j: int| 0 <= j < i ==> s@[j] == word@[j],
        decreases n - i,
    {
        if s.get_ascii(i) != word.get_ascii(i) {
            return false;
        }
        i += 1;
    }
    assert(s@ =~= word@);
    true
}

impl ExportKind {
    /// The kind that a word names: `dir`, `tar` or `zip`.
    pub open spec fn named(s: Seq<char>) -> Option<ExportKind> {
        if s == "dir"@ {
            Some(ExportKind::Dir)
        } else if s == "tar"@ {
            Some(ExportKind::Tar)
        } else if s == "zip"@ {
            Some(ExportKind::Zip)
        } else {
            None
        }
    }

    /// Tells whether exports of this kind are provided: all are but zip
    /// archives. This depends on the kind alone, so it can be asked before
    /// anything is opened, walked or written.
    pub fn provided(&self) -> (r: Result<(), TrackError>)
        ensures
            *self == ExportKind::Zip ==> r == Err::<(), TrackError>(TrackError::Unimplemented),
            *self != ExportKind::Zip ==> r == Ok::<(), TrackError>(()),
    {
        match self {
            ExportKind::Zip => Err(TrackError::Unimplemented),
            _ => Ok(()),
        }
    }

    /// Reads the name of an export kind. Any word but `dir`, `tar` and `zip`
    /// is refused, and the error repeats it.
    pub fn from_str(s: &str) -> (r: Result<ExportKind, TrackError>)
        ensures
            match r {
                Ok(kind) => Self::named(s@) == Some(kind),
                Err(e) => {
                    &&& Self::named(s@) is None
                    &&& e matches TrackError::UnknownExportKind { given }
                    &&& given@ == s@
                },
            },
    {
        proof {
            reveal_strlit("dir");
            reveal_strlit("tar");
            reveal_strlit("zip");
        }
        if spells(s, "dir") {
            Ok(ExportKind::Dir)
        } else if spells(s, "tar") {
            Ok(ExportKind::Tar)
        } else if spells(s, "zip") {
            Ok(ExportKind::Zip)
        } else {
            Err(TrackError::UnknownExportKind { given: String::from_str(s) })
        }
    }
}

/// One child of the destination directory, as found before an export.
#[derive(Debug, PartialEq, Eq)]
pub struct DirChild {
    /// The child's name within the directory.
    pub name: Vec<u8>,
    /// Whether the child is itself a directory. This is looked at only for
    /// a child named `.git`: no other name is spared, whatever the child is,
    /// so for another name the caller need not find it out and may say
    /// `false`.
    pub is_directory: bool,
}

/// The children of a listing that cleaning deletes, as a predicate.
pub open spec fn doomed(child: DirChild) -> bool {
    !excluded(child.name@, child.is_directory)
}

/// The names of the doomed among the first `n` children, in order.
pub open spec fn doomed_upto(children: Seq<DirChild>, n: int) -> Seq<Seq<u8>>
    decreases n,
{
    if n <= 0 {
        Seq::empty()
    } else if doomed(children[n - 1]) {
        doomed_upto(children, n - 1).push(children[n - 1].name@)
    } else {
        doomed_upto(children, n - 1)
    }
}

/// Every doomed child is among the names to delete, and every name to delete
/// is that of a doomed child.
pub proof fn lemma_doomed_exactly(children: Seq<DirChild>, n: int)
    requires
        0 <= n <= children.len(),
    ensures
        forall|i: int|
            0 <= i < n && doomed(#[trigger] children[i]) ==> doomed_upto(children, n).contains(
                children[i].name@,
            ),
        forall|name: Seq<u8>| #[trigger]
            doomed_upto(children, n).contains(name) ==> exists|i: int|
                0 <= i < n && doomed(#[trigger] children[i]) && children[i].name@ == name,
    decreases n,
{
    if n > 0 {
        lemma_doomed_exactly(children, n - 1);
        let before = doomed_upto(children, n - 1);
        let now = doomed_upto(children, n);
        if doomed(children[n - 1]) {
            assert(now[now.len() - 1] == children[n - 1].name@);
            assert forall|i: int| 0 <= i < n && doomed(#[trigger] children[i]) implies now.contains(
                children[i].name@,
            ) by {
                if i < n - 1 {
                    let k = choose|k: int| 0 <= k < before.len() && before[k] == children[i].name@;
                    assert(now[k] == children[i].name@);
                }
            }
            assert forall|name: Seq<u8>| #[trigger] now.contains(name) implies exists|i: int|
                0 <= i < n && doomed(#[trigger] children[i]) && children[i].name@ == name by {
                let k = choose|k: int| 0 <= k < now.len() && now[k] == name;
                if k < before.len() {
                    assert(before[k] == name);
                    assert(before.contains(name));
                } else {
                    assert(doomed(children[n - 1]) && children[n - 1].name@ == name);
                }
            }
        }
    }
}

/// The first step of an export into a directory: the names of the children
/// that are to be deleted, each with all beneath it. Every child goes but a
/// directory named `.git`, which stays untouched.
pub fn clean_targets(children: &Vec<DirChild>) -> (r: Vec<Vec<u8>>)
    ensures
        paths_view(r@) == doomed_upto(children@, children.len() as int),
        forall|i: int|
            0 <= i < children.len() && doomed(#[trigger] children[i]) ==> paths_view(r@).contains(
                children[i].name@,
            ),
        forall|k: int|
            0 <= k < r.len() ==> !excluded(#[trigger] r[k]@, true) || exists|i: int|
                0 <= i < children.len() && !(#[trigger] children[i]).is_directory
                    && children[i].name@ == r[k]@,
{
    let mut out: Vec<Vec<u8>> = Vec::new();
    let mut i: usize = 0;
    assert(paths_view(out@) =~= doomed_upto(children@, 0));
    while i < children.len()
        invariant
            i <= children.len(),
            paths_view(out@) == doomed_upto(children@, i as int),
        decreases children.len() - i,
    {
        let child = &children[i];
        if !is_excluded(&child.name, child.is_directory) {
            let ghost before = out@;
            out.push(copy_bytes(&child.name));
            assert(paths_view(out@) =~= paths_view(before).push(child.name@));
        }
        i += 1;
    }
    proof {
        lemma_doomed_exactly(children@, children.len() as int);
        assert forall|k: int| 0 <= k < out.len() implies !excluded(#[trigger] out[k]@, true)
            || exists|i: int|
            0 <= i < children.len() && !(#[trigger] children[i]).is_directory && children[i].name@
                == out[k]@ by {
            let name = out[k]@;
            assert(paths_view(out@)[k] == name);
            assert(paths_view(out@).contains(name));
        }
    }
    out
}

/// A matched file can be exported when its path is absolute and, made
/// relative to the root of the filesystem, names a file.
pub open spec fn exportable(matched: Seq<u8>) -> bool {
    is_absolute(matched) && names_file(relative_part(matched))
}

/// The match at position `i` is the first that cannot be exported.
pub open spec fn first_unexportable(matches: Seq<Vec<u8>>, i: int) -> bool {
    &&& 0 <= i < matches.len()
    &&& !exportable(matches[i]@)
    &&& forall|j: int| 0 <= j < i ==> exportable((#[trigger] matches[j])@)
}

/// What an export says of a match that cannot be exported.
pub open spec fn not_a_file() -> Seq<char> {
    "not an absolute path to a file"@
}

/// The error for the first match that cannot be exported.
pub open spec fn refuses(e: TrackError, matches: Seq<Vec<u8>>) -> bool {
    exists|i: int|
        {
            &&& #[trigger] first_unexportable(matches, i)
            &&& e matches TrackError::Export { path, reason }
            &&& path@ == matches[i]@
            &&& reason@ == not_a_file()
        }
}

/// Makes a matched file relative to the root of the filesystem, or tells
/// that it cannot be exported.
fn place(matched: &Vec<u8>) -> (r: Option<Vec<u8>>)
    ensures
        match r {
            Some(rel) => exportable(matched@) && rel@ == relative_part(matched@),
            None => !exportable(matched@),
        },
{
    match strip_root(matched) {
        Some(rel) => {
            if rel.len() > 0 && rel[rel.len() - 1] != SEPARATOR {
                Some(rel)
            } else {
                None
            }
        },
        None => None,
    }
}

/// The error that names a match which cannot be exported.
fn refusal(matched: &Vec<u8>) -> (e: TrackError)
    ensures
        e matches TrackError::Export { path, reason } && path@ == matched@ && reason@
            == not_a_file(),
{
    TrackError::Export {
        path: copy_bytes(matched),
        reason: String::from_str("not an absolute path to a file"),
    }
}

/// One file to copy in an export into a directory.
#[derive(Debug, PartialEq, Eq)]
pub struct CopyStep {
    /// The matched file.
    pub source: Vec<u8>,
    /// The directory to create, with all above it, before the copy.
    pub directory: Vec<u8>,
    /// Where the file's bytes go.
    pub destination: Vec<u8>,
}

/// A [`CopyStep`] as a mathematical value.
pub struct StepView {
    pub source: Seq<u8>,
    pub directory: Seq<u8>,
    pub destination: Seq<u8>,
}

impl View for CopyStep {
    type V = StepView;

    open spec fn view(&self) -> StepView {
        StepView {
            source: self.source@,
            directory: self.directory@,
            destination: self.destination@,
        }
    }
}

/// Where a matched file goes beneath `root`: at the path that it has
/// relative to the root of the filesystem.
pub open spec fn copy_step(root: Seq<u8>, matched: Seq<u8>) -> StepView {
    let destination = joined(root, relative_part(matched));
    StepView { source: matched, directory: parent_of(destination), destination }
}

/// The second step of an export into the directory `root`: for each matched
/// file, in the order given, the directory to create and the place to copy
/// it to. Two matches that share a destination are both listed, so the later
/// copy is the one that lasts. Unless every match can be exported there is no
/// plan, and the error names the first that cannot.
pub fn plan_dir_export(root: &Vec<u8>, matches: &Vec<Vec<u8>>) -> (r: Result<
    Vec<CopyStep>,
    TrackError,
>)
    ensures
        match r {
            Ok(steps) => {
                &&& steps.len() == matches.len()
                &&& forall|i: int|
                    0 <= i < matches.len() ==> {
                        &&& exportable(#[trigger] matches[i]@)
                        &&& steps[i]@ == copy_step(root@, matches[i]@)
                        &&& root@.is_prefix_of(steps[i].destination@)
                    }
            },
            Err(e) => refuses(e, matches@),
        },
{
    let mut steps: Vec<CopyStep> = Vec::new();
    let mut i: usize = 0;
    while i < matches.len()
        invariant
            i <= matches.len(),
            steps.len() == i,
            forall|j: int|
                0 <= j < i ==> {
                    &&& exportable(#[trigger] matches[j]@)
                    &&& steps[j]@ == copy_step(root@, matches[j]@)
                    &&& root@.is_prefix_of(steps[j].destination@)
                },
        decreases matches.len() - i,
    {
        let matched = &matches[i];
        match place(matched) {
            Some(rel) => {
                let destination = join(root, &rel);
                let directory = parent(&destination);
                proof {
                    crate::path::lemma_relative_part_is_relative(matched@);
                    crate::path::lemma_joined_keeps_both(root@, rel@);
                }
                steps.push(CopyStep { source: copy_bytes(matched), directory, destination });
            },
            None => {
                assert(first_unexportable(matches@, i as int));
                return Err(refusal(matched));
            },
        }
        i += 1;
    }
    Ok(steps)
}

/// One file to add in an export into an archive.
#[derive(Debug, PartialEq, Eq)]
pub struct ArchiveEntry {
    /// The matched file, whose bytes become the entry's content.
    pub source: Vec<u8>,
    /// The entry's name in the archive.
    pub name: Vec<u8>,
}

/// An export into an archive: for each matched file, in the order given, the
/// name under which it enters the archive, which is the path that it has
/// relative to the root of the filesystem. Unless every match can be exported
/// there is no plan, and the error names the first that cannot.
pub fn plan_tar_export(matches: &Vec<Vec<u8>>) -> (r: Result<Vec<ArchiveEntry>, TrackError>)
    ensures
        match r {
            Ok(entries) => {
                &&& entries.len() == matches.len()
                &&& forall|i: int|
                    0 <= i < matches.len() ==> {
                        &&& exportable(#[trigger] matches[i]@)
                        &&& entries[i].source@ == matches[i]@
                        &&& entries[i].name@ == relative_part(matches[i]@)
                    }
            },
            Err(e) => refuses(e, matches@),
        },
{
    let mut entries: Vec<ArchiveEntry> = Vec::new();
    let mut i: usize = 0;
    while i < matches.len()
        invariant
            i <= matches.len(),
            entries.len() == i,
            forall|j: int|
                0 <= j < i ==> {
                    &&& exportable(#[trigger] matches[j]@)
                    &&& entries[j].source@ == matches[j]@
                    &&& entries[j].name@ == relative_part(matches[j]@)
                },
        decreases matches.len() - i,
    {
        let matched = &matches[i];
        match place(matched) {
            Some(name) => {
                entries.push(ArchiveEntry { source: copy_bytes(matched), name });
            },
            None => {
                assert(first_unexportable(matches@, i as int));
                return Err(refusal(matched));
            },
        }
        i += 1;
    }
    Ok(entries)
}

/// Where an export goes, and in which form.
#[derive(Debug, PartialEq, Eq)]
pub struct ExportTarget {
    pub kind: ExportKind,
    /// The directory to fill, or the archive to write.
    pub destination: Vec<u8>,
}

/// What an export has to do.
#[derive(Debug, PartialEq, Eq)]
pub enum ExportPlan {
    /// Clean the destination directory, then make these copies in order.
    Directory { steps: Vec<CopyStep> },
    /// Create the archive, then add these entries in order.
    Archive { entries: Vec<ArchiveEntry> },
}

/// Plans an export of the matched files to a target. A zip archive is not
/// provided: asking for one fails at once, whatever the matches are, and
/// nothing is planned.
pub fn plan_export(target: &ExportTarget, matches: &Vec<Vec<u8>>) -> (r: Result<
    ExportPlan,
    TrackError,
>)
    ensures
        target.kind == ExportKind::Zip ==> r == Err::<ExportPlan, TrackError>(
            TrackError::Unimplemented,
        ),
        target.kind == ExportKind::Dir ==> match r {
            Ok(plan) => {
                &&& plan matches ExportPlan::Directory { steps }
                &&& steps.len() == matches.len()
                &&& forall|i: int|
                    0 <= i < matches.len() ==> {
                        &&& exportable(#[trigger] matches[i]@)
                        &&& steps[i]@ == copy_step(target.destination@, matches[i]@)
                        &&& target.destination@.is_prefix_of(steps[i].destination@)
                    }
            },
            Err(e) => refuses(e, matches@),
        },
        target.kind == ExportKind::Tar ==> match r {
            Ok(plan) => {
                &&& plan matches ExportPlan::Archive { entries }
                &&& entries.len() == matches.len()
                &&& forall|i: int|
                    0 <= i < matches.len() ==> {
                        &&& exportable(#[trigger] matches[i]@)
                        &&& entries[i].source@ == matches[i]@
                        &&& entries[i].name@ == relative_part(matches[i]@)
                    }
            },
            Err(e) => refuses(e, matches@),
        },
{
    match target.kind {
        ExportKind::Dir => {
            match plan_dir_export(&target.destination, matches) {
                Ok(steps) => Ok(ExportPlan::Directory { steps }),
                Err(e) => Err(e),
            }
        },
        ExportKind::Tar => {
            match plan_tar_export(matches) {
                Ok(entries) => Ok(ExportPlan::Archive { entries }),
                Err(e) => Err(e),
            }
        },
        ExportKind::Zip => Err(TrackError::Unimplemented),
    }
}

} // verus!
