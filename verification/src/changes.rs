//! Change detection between two manifest maps: the unordered set of
//! additions, modifications and deletions that turns one into the
//! other.

use vstd::prelude::*;
use crate::records::{FileRecord, RecordModel, ManifestMap, record_model, entries_contain,
    lemma_entries_index_at, lemma_unique_witness};

verus! {

broadcast use vstd::string::group_string_axioms;

/// Types of file changes.
#[derive(Debug, Clone, PartialEq)]
pub enum FileChangeType {
    /// File was added
    Added,
    /// File was modified
    Modified,
    /// File was deleted
    Deleted,
    /// File was renamed (old path); never produced by detection
    Renamed(String),
}

/// Represents a file change.
#[derive(Debug, Clone)]
pub struct FileChange {
    /// Path of the changed file
    pub path: String,
    /// Type of change
    pub change_type: FileChangeType,
    /// New file record (None for deletions)
    pub new_record: Option<FileRecord>,
    /// Old file record (None for additions)
    pub old_record: Option<FileRecord>,
}

/// A path present in the new map but not the old one.
pub open spec fn is_added_at(mo: Map<Seq<char>, RecordModel>, mn: Map<Seq<char>, RecordModel>,
    p: Seq<char>) -> bool {
    mn.dom().contains(p) && !mo.dom().contains(p)
}

/// A path present in both maps with records that differ in any field.
pub open spec fn is_modified_at(mo: Map<Seq<char>, RecordModel>, mn: Map<Seq<char>, RecordModel>,
    p: Seq<char>) -> bool {
    mo.dom().contains(p) && mn.dom().contains(p) && mo[p] != mn[p]
}

/// A path present in the old map but not the new one.
pub open spec fn is_deleted_at(mo: Map<Seq<char>, RecordModel>, mn: Map<Seq<char>, RecordModel>,
    p: Seq<char>) -> bool {
    mo.dom().contains(p) && !mn.dom().contains(p)
}

/// A change entry that faithfully describes the two maps at its path.
pub open spec fn change_valid(c: &FileChange, mo: Map<Seq<char>, RecordModel>, mn: Map<Seq<char>,
    RecordModel>) -> bool {
    match c.change_type {
        FileChangeType::Added => is_added_at(mo, mn, c.path@) && c.old_record is None
            && (c.new_record matches Some(nr) && record_model(&nr) == mn[c.path@]),
        FileChangeType::Modified => is_modified_at(mo, mn, c.path@) && (c.old_record matches Some(
            or) && record_model(&or) == mo[c.path@]) && (c.new_record matches Some(nr)
            && record_model(&nr) == mn[c.path@]),
        FileChangeType::Deleted => is_deleted_at(mo, mn, c.path@) && c.new_record is None && (
        c.old_record matches Some(or) && record_model(&or) == mo[c.path@]),
        FileChangeType::Renamed(_) => false,
    }
}

/// Some change in the list names this path.
pub open spec fn has_change(cs: Seq<FileChange>, p: Seq<char>) -> bool {
    exists|i: int| 0 <= i < cs.len() && (#[trigger] cs[i].path@) == p
}

impl FileChange {
    /// Create a new file addition change.
    pub fn added(record: FileRecord) -> (c: FileChange)
        ensures
            c.path@ == record.path@,
            c.change_type == FileChangeType::Added,
            c.new_record matches Some(nr) && nr == record,
            c.old_record is None,
    {
        let path = record.path.clone();
        FileChange { path, change_type: FileChangeType::Added, new_record: Some(record),
            old_record: None }
    }

    /// Create a new file modification change.
    pub fn modified(old_record: FileRecord, new_record: FileRecord) -> (c: FileChange)
        ensures
            c.path@ == new_record.path@,
            c.change_type == FileChangeType::Modified,
            c.new_record matches Some(nr) && nr == new_record,
            c.old_record matches Some(or) && or == old_record,
    {
        let path = new_record.path.clone();
        FileChange { path, change_type: FileChangeType::Modified, new_record: Some(new_record),
            old_record: Some(old_record) }
    }

    /// Create a new file deletion change.
    pub fn deleted(record: FileRecord) -> (c: FileChange)
        ensures
            c.path@ == record.path@,
            c.change_type == FileChangeType::Deleted,
            c.new_record is None,
            c.old_record matches Some(or) && or == record,
    {
        let path = record.path.clone();
        FileChange { path, change_type: FileChangeType::Deleted, new_record: None,
            old_record: Some(record) }
    }

    /// A one-line description of this change.
    pub fn description(&self) -> (r: String)
        ensures
            self.change_type == FileChangeType::Added ==> r@ == "+ "@ + self.path@,
            self.change_type == FileChangeType::Modified ==> r@ == "M "@ + self.path@,
            self.change_type == FileChangeType::Deleted ==> r@ == "- "@ + self.path@,
            self.change_type matches FileChangeType::Renamed(old) ==> r@ == "R "@ + old@ + " -> "@
                + self.path@,
    {
        match &self.change_type {
            FileChangeType::Added => {
                let mut s = String::from_str("+ ");
                s.append(self.path.as_str());
                s
            },
            FileChangeType::Modified => {
                let mut s = String::from_str("M ");
                s.append(self.path.as_str());
                s
            },
            FileChangeType::Deleted => {
                let mut s = String::from_str("- ");
                s.append(self.path.as_str());
                s
            },
            FileChangeType::Renamed(old_path) => {
                let mut s = String::from_str("R ");
                s.append(old_path.as_str());
                s.append(" -> ");
                s.append(self.path.as_str());
                s
            },
        }
    }
}

/// The path is one carried by the first `bound` entries.
pub open spec fn path_from(entries: Seq<FileRecord>, bound: int, p: Seq<char>) -> bool {
    exists|j: int| 0 <= j < bound && p == (#[trigger] entries[j].path@)
}

/// Detect changes between two manifest maps: every added, modified or
/// deleted path appears exactly once, with the records that justify it;
/// unchanged paths appear nowhere; renames are not detected.
pub fn detect_changes(old_records: &ManifestMap, new_records: &ManifestMap) -> (r: Vec<FileChange>)
    requires
        old_records.wf(),
        new_records.wf(),
    ensures
        forall|i: int| 0 <= i < r@.len() ==> change_valid(&(#[trigger] r@[i]), old_records@,
            new_records@),
        forall|i: int, j: int| 0 <= i < j < r@.len() ==> (#[trigger] r@[i].path@) != (
        #[trigger] r@[j].path@),
        forall|p: Seq<char>|
            is_added_at(old_records@, new_records@, p) || is_modified_at(old_records@,
                new_records@, p) || is_deleted_at(old_records@, new_records@, p) ==> has_change(
                r@, p),
{
    let ghost mo = old_records@;
    let ghost mn = new_records@;
    let ghost ne = new_records.entries@;
    let ghost oe = old_records.entries@;
    let mut changes: Vec<FileChange> = Vec::new();
    // additions and modifications, walking the new map
    let mut i: usize = 0;
    while i < new_records.entries.len()
        invariant
            old_records.wf(),
            new_records.wf(),
            mo == old_records@,
            mn == new_records@,
            ne == new_records.entries@,
            0 <= i <= ne.len(),
            forall|k: int| 0 <= k < changes@.len() ==> change_valid(&(#[trigger] changes@[k]), mo,
                mn),
            forall|k: int| 0 <= k < changes@.len() ==> path_from(ne, i as int,
                (#[trigger] changes@[k]).path@),
            forall|k1: int, k2: int| 0 <= k1 < k2 < changes@.len() ==> (
            #[trigger] changes@[k1].path@) != (#[trigger] changes@[k2].path@),
            forall|j: int| 0 <= j < i && (is_added_at(mo, mn, #[trigger] ne[j].path@)
                || is_modified_at(mo, mn, ne[j].path@)) ==> has_change(changes@, ne[j].path@),
        decreases ne.len() - i,
    {
        let rec = &new_records.entries[i];
        let ghost p = rec.path@;
        proof {
            lemma_entries_index_at(ne, i as int);
            assert(mn.dom().contains(p));
            assert(mn[p] == record_model(rec));
        }
        let ghost old_changes = changes@;
        let mut pushed = false;
        match old_records.get(rec.path.as_str()) {
            Some(old_rec) => {
                if !(*old_rec == *rec) {
                    changes.push(FileChange::modified(old_rec.duplicate(), rec.duplicate()));
                    pushed = true;
                }
            },
            None => {
                changes.push(FileChange::added(rec.duplicate()));
                pushed = true;
            },
        }
        proof {
            if pushed {
                assert(changes@.len() == old_changes.len() + 1);
                assert(changes@[old_changes.len() as int].path@ == p);
                assert(change_valid(&changes@[old_changes.len() as int], mo, mn));
                // the fresh path is new among the collected ones
                assert forall|k1: int, k2: int| 0 <= k1 < k2 < changes@.len() implies (
                #[trigger] changes@[k1].path@) != (#[trigger] changes@[k2].path@) by {
                    if k2 == old_changes.len() {
                        if changes@[k1].path@ == p {
                            let j = choose|j: int| 0 <= j < i && old_changes[k1].path@ == (
                            #[trigger] ne[j].path@);
                            lemma_unique_witness(ne, j, i as int);
                        }
                    }
                }
            }
            assert forall|k: int| 0 <= k < changes@.len() implies path_from(ne, i + 1,
                (#[trigger] changes@[k]).path@) by {
                if k < old_changes.len() {
                    let j = choose|j: int| 0 <= j < i && old_changes[k].path@ == (#[trigger] ne[
                        j].path@);
                    assert(0 <= j < i + 1 && changes@[k].path@ == ne[j].path@);
                } else {
                    assert(changes@[k].path@ == ne[i as int].path@);
                }
            }
            assert forall|j: int| 0 <= j < i + 1 && (is_added_at(mo, mn, #[trigger] ne[j].path@)
                || is_modified_at(mo, mn, ne[j].path@)) implies has_change(changes@,
                ne[j].path@) by {
                if j < i {
                    assert(has_change(old_changes, ne[j].path@));
                    let k = choose|k: int| 0 <= k < old_changes.len() && (#[trigger] old_changes[
                        k].path@) == ne[j].path@;
                    assert(changes@[k].path@ == ne[j].path@);
                } else {
                    assert(changes@[old_changes.len() as int].path@ == p);
                }
            }
        }
        i += 1;
    }
    // deletions, walking the old map
    let ghost after_first = changes@;
    let mut i2: usize = 0;
    while i2 < old_records.entries.len()
        invariant
            old_records.wf(),
            new_records.wf(),
            mo == old_records@,
            mn == new_records@,
            ne == new_records.entries@,
            oe == old_records.entries@,
            0 <= i2 <= oe.len(),
            forall|k: int| 0 <= k < changes@.len() ==> change_valid(&(#[trigger] changes@[k]), mo,
                mn),
            forall|k1: int, k2: int| 0 <= k1 < k2 < changes@.len() ==> (
            #[trigger] changes@[k1].path@) != (#[trigger] changes@[k2].path@),
            after_first.len() <= changes@.len(),
            forall|k: int| 0 <= k < after_first.len() ==> #[trigger] changes@[k] == after_first[k],
            forall|k: int| 0 <= k < after_first.len() ==> path_from(ne, ne.len() as int,
                (#[trigger] changes@[k]).path@),
            forall|k: int| after_first.len() <= k < changes@.len() ==> !mn.dom().contains(
                (#[trigger] changes@[k]).path@) && path_from(oe, i2 as int, changes@[k].path@),
            forall|j: int| 0 <= j < i2 && is_deleted_at(mo, mn, #[trigger] oe[j].path@)
                ==> has_change(changes@, oe[j].path@),
            forall|j: int| 0 <= j < ne.len() && (is_added_at(mo, mn, #[trigger] ne[j].path@)
                || is_modified_at(mo, mn, ne[j].path@)) ==> has_change(changes@, ne[j].path@),
        decreases oe.len() - i2,
    {
        let rec = &old_records.entries[i2];
        let ghost p = rec.path@;
        proof {
            lemma_entries_index_at(oe, i2 as int);
            assert(mo.dom().contains(p));
            assert(mo[p] == record_model(rec));
        }
        let ghost old_changes = changes@;
        match new_records.get(rec.path.as_str()) {
            Some(_) => {},
            None => {
                changes.push(FileChange::deleted(rec.duplicate()));
                proof {
                    assert(changes@[old_changes.len() as int].path@ == p);
                    assert(change_valid(&changes@[old_changes.len() as int], mo, mn));
                    // the deleted path differs from every collected path
                    assert forall|k1: int, k2: int| 0 <= k1 < k2 < changes@.len() implies (
                    #[trigger] changes@[k1].path@) != (#[trigger] changes@[k2].path@) by {
                        if k2 == old_changes.len() {
                            if changes@[k1].path@ == p {
                                if k1 < after_first.len() {
                                    // earlier changes name paths of the new map, p is not one
                                    let j = choose|j: int| 0 <= j < ne.len() && after_first[
                                        k1].path@ == (#[trigger] ne[j].path@);
                                    assert(mn.dom().contains(p)) by {
                                        assert(entries_contain(ne, p)) by {
                                            assert(ne[j].path@ == p);
                                        }
                                    }
                                } else {
                                    let j = choose|j: int| 0 <= j < i2 && old_changes[k1].path@
                                        == (#[trigger] oe[j].path@);
                                    lemma_unique_witness(oe, j, i2 as int);
                                }
                            }
                        }
                    }
                }
            },
        }
        proof {
            assert forall|j: int| 0 <= j < i2 + 1 && is_deleted_at(mo, mn, #[trigger] oe[j].path@)
                implies has_change(changes@, oe[j].path@) by {
                if j < i2 {
                    let k = choose|k: int| 0 <= k < old_changes.len() && (#[trigger] old_changes[
                        k].path@) == oe[j].path@;
                    assert(changes@[k].path@ == oe[j].path@);
                } else {
                    assert(changes@[changes@.len() - 1].path@ == p);
                }
            }
            assert forall|j: int| 0 <= j < ne.len() && (is_added_at(mo, mn, #[trigger] ne[j].path@)
                || is_modified_at(mo, mn, ne[j].path@)) implies has_change(changes@,
                ne[j].path@) by {
                let k = choose|k: int| 0 <= k < old_changes.len() && (#[trigger] old_changes[
                    k].path@) == ne[j].path@;
                assert(changes@[k].path@ == ne[j].path@);
            }
        }
        i2 += 1;
    }
    proof {
        // every changed path is reached through its entry's position
        assert forall|p: Seq<char>|
            is_added_at(mo, mn, p) || is_modified_at(mo, mn, p) || is_deleted_at(mo, mn,
                p) implies has_change(changes@, p) by {
            if is_added_at(mo, mn, p) || is_modified_at(mo, mn, p) {
                assert(entries_contain(ne, p));
                let j = choose|j: int| 0 <= j < ne.len() && (#[trigger] ne[j].path@) == p;
                assert(has_change(changes@, ne[j].path@));
            } else {
                assert(entries_contain(oe, p));
                let j = choose|j: int| 0 <= j < oe.len() && (#[trigger] oe[j].path@) == p;
                assert(has_change(changes@, oe[j].path@));
            }
        }
    }
    changes
}

} // verus!
