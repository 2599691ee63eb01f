//! The snapshot builder.
//!
//! The filesystem traversal itself is unverified I/O and stays with the
//! caller; it hands over one [`ScanItem`] per visited entry, in traversal
//! order. [`build_snapshot`] assembles the sorted snapshot from those plain
//! records: readable entries become snapshot entries (a later record for
//! the same path replaces an earlier one), unreadable entries become
//! [`ScanWarning`]s, and a scan in which every proper entry failed is
//! rejected as a whole.

use vstd::prelude::*;
use crate::model::FileType;
use crate::model::PathEntry;
use crate::model::Snapshot;
use crate::model::SnapshotEntry;
use crate::model::entries_view;
use crate::model::wf_entry_seq;
use crate::model::insert_entry;
use crate::model::insert_entry_spec;
use crate::model::lemma_insert_entry_wf;

verus! {

/// Plain metadata for one visited filesystem entry, as the traversal
/// reports it.
#[derive(Clone, Copy, PartialEq, Eq, Structural, Debug)]
pub struct RawMeta {
    pub mod_time: i64,
    pub permissions: u32,
    pub size: u64,
    pub is_dir: bool,
    pub is_symlink: bool,
}

/// One record from walking a tree: the root-relative path, and either the
/// entry's metadata or the message of the failure to read it.
pub struct ScanItem {
    pub path: String,
    pub meta: Result<RawMeta, String>,
}

/// A non-fatal per-entry failure recorded during a scan.
pub struct ScanWarning {
    pub path: String,
    pub cause: String,
}

/// Why a scan could not produce a snapshot at all.
#[derive(Clone, Copy, PartialEq, Eq, Structural, Debug)]
pub enum ScanError {
    /// The scan root does not exist.
    NotFound,
    /// The scan root exists but is not a directory.
    NotADirectory,
    /// Every proper entry under the root failed to read, so the snapshot
    /// would be indistinguishable from that of an empty directory.
    AllEntriesFailed,
}

/// The type of an entry, from its metadata flags. A directory flag wins
/// over a symlink flag; anything else is a regular file.
pub open spec fn ftype_of(is_dir: bool, is_symlink: bool) -> FileType {
    if is_dir {
        FileType::Directory
    } else if is_symlink {
        FileType::Symlink
    } else {
        FileType::File
    }
}

/// The snapshot metadata recorded for one readable entry.
pub open spec fn entry_of(m: RawMeta) -> PathEntry {
    PathEntry {
        mod_time: m.mod_time,
        permissions: m.permissions,
        size: m.size,
        ftype: ftype_of(m.is_dir, m.is_symlink),
    }
}

/// The entry list a scan describes: readable entries inserted in order
/// (later records replace earlier ones at the same path), the root itself
/// (empty relative path) excluded, unreadable entries skipped.
pub open spec fn build_entries(items: Seq<ScanItem>) -> Seq<(Seq<char>, PathEntry)>
    decreases items.len(),
{
    if items.len() == 0 {
        Seq::empty()
    } else {
        let prev = build_entries(items.drop_last());
        match items.last().meta {
            Ok(m) => if items.last().path@.len() > 0 {
                insert_entry_spec(prev, items.last().path@, entry_of(m))
            } else {
                prev
            },
            Err(_) => prev,
        }
    }
}

/// The view of a warning list: (path, cause) pairs.
pub open spec fn warnings_view(s: Seq<ScanWarning>) -> Seq<(Seq<char>, Seq<char>)> {
    s.map_values(|w: ScanWarning| (w.path@, w.cause@))
}

/// The warnings a scan owes: one per unreadable entry, in scan order.
pub open spec fn build_warnings(items: Seq<ScanItem>) -> Seq<(Seq<char>, Seq<char>)>
    decreases items.len(),
{
    if items.len() == 0 {
        Seq::empty()
    } else {
        let prev = build_warnings(items.drop_last());
        match items.last().meta {
            Ok(_) => prev,
            Err(c) => prev.push((items.last().path@, c@)),
        }
    }
}

/// Some entry failed to read.
pub open spec fn has_failed_item(items: Seq<ScanItem>) -> bool {
    exists|i: int| 0 <= i < items.len() && (#[trigger] items[i].meta) is Err
}

/// Some proper entry (not the root itself) was read successfully.
pub open spec fn has_scanned_entry(items: Seq<ScanItem>) -> bool {
    exists|i: int| 0 <= i < items.len() && (#[trigger] items[i].meta) is Ok
        && items[i].path@.len() > 0
}

/// Every proper entry under the root failed: there were failures and not a
/// single readable proper entry.
pub open spec fn all_entries_failed(items: Seq<ScanItem>) -> bool {
    has_failed_item(items) && !has_scanned_entry(items)
}

/// Build-entry well-formedness: the accumulated entry list is sorted and
/// holds no empty path.
pub proof fn lemma_build_entries_wf(items: Seq<ScanItem>)
    ensures
        wf_entry_seq(build_entries(items)),
        forall|i: int| 0 <= i < build_entries(items).len() ==> (#[trigger] build_entries(
            items,
        )[i].0).len() > 0,
    decreases items.len(),
{
    if items.len() > 0 {
        lemma_build_entries_wf(items.drop_last());
        let prev = build_entries(items.drop_last());
        match items.last().meta {
            Ok(m) => {
                if items.last().path@.len() > 0 {
                    lemma_insert_entry_wf(prev, items.last().path@, entry_of(m));
                }
            },
            Err(_) => {},
        }
    }
}

/// The type of an entry, from its metadata flags.
pub fn ftype_from_flags(is_dir: bool, is_symlink: bool) -> (t: FileType)
    ensures
        t == ftype_of(is_dir, is_symlink),
{
    if is_dir {
        FileType::Directory
    } else if is_symlink {
        FileType::Symlink
    } else {
        FileType::File
    }
}

/// Assemble a snapshot from the records of one traversal.
///
/// Succeeds with the snapshot and the warning list unless every proper
/// entry failed to read, in which case the whole scan fails with
/// `AllEntriesFailed`. `NotFound` and `NotADirectory` concern the root
/// itself and are raised by the caller that opens it, before any item
/// exists.
pub fn build_snapshot(root: String, scan_time: u64, items: Vec<ScanItem>) -> (r: Result<
    (Snapshot, Vec<ScanWarning>),
    ScanError,
>)
    ensures
        r is Err <==> all_entries_failed(items@),
        r is Err ==> r->Err_0 == ScanError::AllEntriesFailed,
        r is Ok ==> r->Ok_0.0.scan_time == scan_time,
        r is Ok ==> r->Ok_0.0.root == root,
        r is Ok ==> r->Ok_0.0.view_entries() == build_entries(items@),
        r is Ok ==> r->Ok_0.0.wf(),
        r is Ok ==> warnings_view(r->Ok_0.1@) == build_warnings(items@),
{
    let mut entries: Vec<SnapshotEntry> = Vec::new();
    let mut warnings: Vec<ScanWarning> = Vec::new();
    let mut saw_failed = false;
    let mut saw_scanned = false;
    let n = items.len();
    proof {
        assert(items@.take(0) =~= Seq::<ScanItem>::empty());
        assert(entries_view(entries@) =~= build_entries(items@.take(0)));
        assert(warnings_view(warnings@) =~= build_warnings(items@.take(0)));
    }
    let mut i: usize = 0;
    while i < n
        invariant
            i <= n,
            n == items.len(),
            entries_view(entries@) == build_entries(items@.take(i as int)),
            warnings_view(warnings@) == build_warnings(items@.take(i as int)),
            saw_failed == has_failed_item(items@.take(i as int)),
            saw_scanned == has_scanned_entry(items@.take(i as int)),
        decreases n - i,
    {
        let ghost pre = items@.take(i as int);
        let ghost cur = items@.take(i + 1);
        proof {
            assert(cur.drop_last() =~= pre);
            assert(cur.last() == items@[i as int]);
            assert(forall|j: int| 0 <= j < cur.len() ==> cur[j] == items@[j]);
            assert(forall|j: int| 0 <= j < pre.len() ==> pre[j] == items@[j]);
        }
        let it = &items[i];
        match &it.meta {
            Ok(m) => {
                if !it.path.as_str().is_empty() {
                    let entry = PathEntry {
                        mod_time: m.mod_time,
                        permissions: m.permissions,
                        size: m.size,
                        ftype: ftype_from_flags(m.is_dir, m.is_symlink),
                    };
                    insert_entry(&mut entries, it.path.clone(), entry);
                    saw_scanned = true;
                    proof {
                        assert(entry == entry_of(items@[i as int].meta->Ok_0));
                        assert(has_scanned_entry(cur)) by {
                            assert(cur[i as int].meta is Ok && cur[i as int].path@.len() > 0);
                        }
                        assert(has_failed_item(cur) == has_failed_item(pre)) by {
                            if has_failed_item(cur) {
                                let j = choose|j: int|
                                    0 <= j < cur.len() && (#[trigger] cur[j].meta) is Err;
                                if j < i {
                                    assert(pre[j].meta is Err);
                                }
                            }
                            if has_failed_item(pre) {
                                let j = choose|j: int|
                                    0 <= j < pre.len() && (#[trigger] pre[j].meta) is Err;
                                assert(cur[j].meta is Err);
                            }
                        }
                    }
                } else {
                    proof {
                        assert(build_entries(cur) == build_entries(pre));
                        assert(has_failed_item(cur) == has_failed_item(pre)) by {
                            if has_failed_item(cur) {
                                let j = choose|j: int|
                                    0 <= j < cur.len() && (#[trigger] cur[j].meta) is Err;
                                if j < i {
                                    assert(pre[j].meta is Err);
                                }
                            }
                            if has_failed_item(pre) {
                                let j = choose|j: int|
                                    0 <= j < pre.len() && (#[trigger] pre[j].meta) is Err;
                                assert(cur[j].meta is Err);
                            }
                        }
                        assert(has_scanned_entry(cur) == has_scanned_entry(pre)) by {
                            if has_scanned_entry(cur) {
                                let j = choose|j: int|
                                    0 <= j < cur.len() && (#[trigger] cur[j].meta) is Ok
                                        && cur[j].path@.len() > 0;
                                if j < i {
                                    assert(pre[j].meta is Ok && pre[j].path@.len() > 0);
                                } else {
                                    assert(false);
                                }
                            }
                            if has_scanned_entry(pre) {
                                let j = choose|j: int|
                                    0 <= j < pre.len() && (#[trigger] pre[j].meta) is Ok
                                        && pre[j].path@.len() > 0;
                                assert(cur[j].meta is Ok && cur[j].path@.len() > 0);
                            }
                        }
                    }
                }
            },
            Err(c) => {
                warnings.push(ScanWarning { path: it.path.clone(), cause: c.clone() });
                saw_failed = true;
                proof {
                    assert(warnings_view(warnings@) =~= warnings_view(warnings@.drop_last()).push(
                        (items@[i as int].path@, items@[i as int].meta->Err_0@),
                    ));
                    assert(build_entries(cur) == build_entries(pre));
                    assert(has_failed_item(cur)) by {
                        assert(cur[i as int].meta is Err);
                    }
                    assert(has_scanned_entry(cur) == has_scanned_entry(pre)) by {
                        if has_scanned_entry(cur) {
                            let j = choose|j: int|
                                0 <= j < cur.len() && (#[trigger] cur[j].meta) is Ok
                                    && cur[j].path@.len() > 0;
                            if j < i {
                                assert(pre[j].meta is Ok && pre[j].path@.len() > 0);
                            } else {
                                assert(false);
                            }
                        }
                        if has_scanned_entry(pre) {
                            let j = choose|j: int|
                                0 <= j < pre.len() && (#[trigger] pre[j].meta) is Ok
                                    && pre[j].path@.len() > 0;
                            assert(cur[j].meta is Ok && cur[j].path@.len() > 0);
                        }
                    }
                }
            },
        }
        i = i + 1;
    }
    proof {
        assert(items@.take(n as int) =~= items@);
        lemma_build_entries_wf(items@);
    }
    if saw_failed && !saw_scanned {
        Err(ScanError::AllEntriesFailed)
    } else {
        let snap = Snapshot { scan_time, root, entries };
        Ok((snap, warnings))
    }
}

/// Idempotent assembly: the entry list of a snapshot is a pure function of
/// the scan records, so two scans that observe the same records (an
/// unmodified tree) describe equal entries, whatever their scan times.
pub proof fn lemma_build_deterministic(
    items1: Seq<ScanItem>,
    items2: Seq<ScanItem>,
    e1: Seq<(Seq<char>, PathEntry)>,
    e2: Seq<(Seq<char>, PathEntry)>,
)
    requires
        items1 == items2,
        e1 == build_entries(items1),
        e2 == build_entries(items2),
    ensures
        e1 == e2,
{
}

} // verus!
