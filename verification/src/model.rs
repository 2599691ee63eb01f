//! The snapshot data model.
//!
//! A [`Snapshot`] is an immutable point-in-time record of one directory
//! tree: a map from root-relative path to [`PathEntry`] metadata, kept as a
//! vector of entries strictly sorted by path. Strict sorting gives unique
//! keys and a canonical entry order, which makes snapshot comparison and
//! serialization deterministic.

use vstd::prelude::*;
use crate::order::str_lt;
use crate::order::lemma_str_lt_asym;
use crate::order::lemma_str_lt_trans;
use crate::order::lemma_str_lt_trichotomy;
use crate::order::cmp_str;

verus! {

/// The kind of a filesystem object. A symlink is recorded as such and never
/// followed, so a link is never classified by its target.
#[derive(Clone, Copy, PartialEq, Eq, Structural, Debug)]
pub enum FileType {
    File,
    Directory,
    Symlink,
}

/// Metadata for one filesystem object, keyed by its root-relative path.
///
/// `mod_time` is in whole seconds since the epoch (sub-second precision is
/// discarded). `permissions` holds POSIX-style mode bits; on platforms
/// without POSIX permissions it is a best-effort value and is
/// platform-dependent. `size` is meaningful only for regular files.
#[derive(Clone, Copy, PartialEq, Eq, Structural, Debug)]
pub struct PathEntry {
    pub mod_time: i64,
    pub permissions: u32,
    pub size: u64,
    pub ftype: FileType,
}

/// One snapshot entry: a root-relative path and its metadata.
pub struct SnapshotEntry {
    pub path: String,
    pub entry: PathEntry,
}

/// An immutable point-in-time record of one directory tree.
pub struct Snapshot {
    /// Epoch seconds at which the scan began; provenance only, never
    /// consulted when two snapshots are compared.
    pub scan_time: u64,
    /// The absolute path that was scanned.
    pub root: String,
    /// Entries strictly sorted by relative path; the root itself (empty
    /// relative path) is never recorded.
    pub entries: Vec<SnapshotEntry>,
}

/// The mathematical view of an entry list: a sequence of (path, metadata)
/// pairs.
pub open spec fn entries_view(s: Seq<SnapshotEntry>) -> Seq<(Seq<char>, PathEntry)> {
    s.map_values(|e: SnapshotEntry| (e.path@, e.entry))
}

/// Entry keys are strictly increasing, hence unique.
pub open spec fn wf_entry_seq(s: Seq<(Seq<char>, PathEntry)>) -> bool {
    forall|i: int, j: int| 0 <= i < j < s.len() ==> str_lt(s[i].0, s[j].0)
}

/// The map from path to metadata described by an entry sequence. With
/// duplicate keys the earlier entry wins; a well-formed sequence has none.
pub open spec fn entry_map(s: Seq<(Seq<char>, PathEntry)>) -> Map<Seq<char>, PathEntry>
    decreases s.len(),
{
    if s.len() == 0 {
        Map::empty()
    } else {
        entry_map(s.skip(1)).insert(s[0].0, s[0].1)
    }
}

impl Snapshot {
    /// The view of this snapshot's entries.
    pub open spec fn view_entries(self) -> Seq<(Seq<char>, PathEntry)> {
        entries_view(self.entries@)
    }

    /// Entries are strictly sorted by path and no path is empty.
    pub open spec fn wf(self) -> bool {
        &&& wf_entry_seq(self.view_entries())
        &&& forall|i: int| 0 <= i < self.view_entries().len() ==> self.view_entries()[i].0.len() > 0
    }

    /// The snapshot's entries as a map from path to metadata.
    pub open spec fn map_view(self) -> Map<Seq<char>, PathEntry> {
        entry_map(self.view_entries())
    }

    /// Look up the metadata recorded for a relative path.
    pub fn get(&self, path: &str) -> (r: Option<PathEntry>)
        requires
            self.wf(),
        ensures
            r is Some <==> self.map_view().contains_key(path@),
            r is Some ==> r->0 == self.map_view()[path@],
    {
        proof {
            lemma_entry_map_props(self.view_entries());
        }
        let mut i: usize = 0;
        while i < self.entries.len()
            invariant
                i <= self.entries.len(),
                self.wf(),
                forall|j: int| 0 <= j < i ==> self.view_entries()[j].0 != path@,
            decreases self.entries.len() - i,
        {
            proof {
                assert(self.view_entries()[i as int] == (
                    self.entries@[i as int].path@,
                    self.entries@[i as int].entry,
                ));
            }
            if cmp_str(self.entries[i].path.as_str(), path) == 0 {
                proof {
                    lemma_entry_map_props(self.view_entries());
                }
                return Some(self.entries[i].entry);
            }
            i = i + 1;
        }
        proof {
            lemma_entry_map_props(self.view_entries());
            if self.map_view().contains_key(path@) {
                let j = choose|j: int|
                    0 <= j < self.view_entries().len() && self.view_entries()[j].0 == path@;
                assert(false);
            }
        }
        None
    }
}

/// Every key of an entry sequence is strictly above `x`.
pub open spec fn all_keys_gt(x: Seq<char>, s: Seq<(Seq<char>, PathEntry)>) -> bool {
    forall|i: int| 0 <= i < s.len() ==> str_lt(x, s[i].0)
}

/// Insertion into a sorted entry sequence: replaces the entry at an equal
/// key, otherwise places the new entry at its ordered position.
pub open spec fn insert_entry_spec(
    s: Seq<(Seq<char>, PathEntry)>,
    k: Seq<char>,
    d: PathEntry,
) -> Seq<(Seq<char>, PathEntry)>
    decreases s.len(),
{
    if s.len() == 0 {
        seq![(k, d)]
    } else if str_lt(s[0].0, k) {
        seq![s[0]] + insert_entry_spec(s.skip(1), k, d)
    } else if k == s[0].0 {
        seq![(k, d)] + s.skip(1)
    } else {
        seq![(k, d)] + s
    }
}

/// Where the insertion lands: if the first `p` keys are below `k` and the
/// key at `p` (if any) is not, the result replaces at `p` on an equal key
/// and otherwise splices the new entry in at `p`.
pub proof fn lemma_insert_entry_at(
    s: Seq<(Seq<char>, PathEntry)>,
    k: Seq<char>,
    d: PathEntry,
    p: int,
)
    requires
        0 <= p <= s.len(),
        forall|j: int| 0 <= j < p ==> str_lt(s[j].0, k),
        p < s.len() ==> !str_lt(s[p].0, k),
    ensures
        p < s.len() && s[p].0 == k ==> insert_entry_spec(s, k, d) == s.update(p, (k, d)),
        p == s.len() || s[p].0 != k ==> insert_entry_spec(s, k, d) == s.subrange(0, p)
            + seq![(k, d)] + s.skip(p),
    decreases p,
{
    if p == 0 {
        if s.len() == 0 {
            assert(insert_entry_spec(s, k, d) =~= s.subrange(0, 0) + seq![(k, d)] + s.skip(0));
        } else if s[0].0 == k {
            assert(insert_entry_spec(s, k, d) =~= s.update(0, (k, d)));
        } else {
            assert(!str_lt(s[0].0, k));
            assert(insert_entry_spec(s, k, d) =~= s.subrange(0, 0) + seq![(k, d)] + s.skip(0));
        }
    } else {
        assert(str_lt(s[0].0, k));
        let t = s.skip(1);
        assert(forall|j: int| 0 <= j < p - 1 ==> t[j] == s[j + 1] && str_lt(t[j].0, k));
        lemma_insert_entry_at(t, k, d, p - 1);
        assert(insert_entry_spec(s, k, d) == seq![s[0]] + insert_entry_spec(t, k, d));
        if p < s.len() && s[p].0 == k {
            assert(insert_entry_spec(t, k, d) == t.update(p - 1, (k, d)));
            assert(seq![s[0]] + t.update(p - 1, (k, d)) =~= s.update(p, (k, d)));
        } else {
            assert(insert_entry_spec(t, k, d) == t.subrange(0, p - 1) + seq![(k, d)]
                + t.skip(p - 1));
            assert(seq![s[0]] + (t.subrange(0, p - 1) + seq![(k, d)] + t.skip(p - 1))
                =~= s.subrange(0, p) + seq![(k, d)] + s.skip(p));
        }
    }
}

/// Sorted insertion keeps the sequence sorted, updates the described map by
/// exactly the inserted binding, and introduces no key besides `k`.
pub proof fn lemma_insert_entry_wf(s: Seq<(Seq<char>, PathEntry)>, k: Seq<char>, d: PathEntry)
    requires
        wf_entry_seq(s),
    ensures
        wf_entry_seq(insert_entry_spec(s, k, d)),
        entry_map(insert_entry_spec(s, k, d)) == entry_map(s).insert(k, d),
        forall|x: Seq<char>| all_keys_gt(x, s) && str_lt(x, k) ==> #[trigger] all_keys_gt(
            x,
            insert_entry_spec(s, k, d),
        ),
        forall|i: int| 0 <= i < insert_entry_spec(s, k, d).len() ==> (#[trigger] insert_entry_spec(
            s,
            k,
            d,
        )[i].0) == k || exists|j: int| 0 <= j < s.len() && s[j].0 == insert_entry_spec(s, k, d)[i].0,
    decreases s.len(),
{
    let r = insert_entry_spec(s, k, d);
    if s.len() == 0 {
        assert(r =~= seq![(k, d)]);
        assert(r.skip(1) =~= Seq::<(Seq<char>, PathEntry)>::empty());
        assert(entry_map(r) == entry_map(r.skip(1)).insert(r[0].0, r[0].1));
        assert(entry_map(r.skip(1)) == Map::<Seq<char>, PathEntry>::empty());
        assert(entry_map(r) =~= entry_map(s).insert(k, d));
    } else if str_lt(s[0].0, k) {
        let t = s.skip(1);
        assert(forall|i: int, j: int| 0 <= i < j < t.len() ==> t[i] == s[i + 1] && t[j] == s[j + 1]
            && str_lt(t[i].0, t[j].0));
        lemma_insert_entry_wf(t, k, d);
        let rt = insert_entry_spec(t, k, d);
        assert(r == seq![s[0]] + rt);
        // the head key is below every key of the inserted tail
        assert(all_keys_gt(s[0].0, t));
        assert(all_keys_gt(s[0].0, rt));
        assert forall|i: int, j: int| 0 <= i < j < r.len() implies str_lt(r[i].0, r[j].0) by {
            if i == 0 {
                assert(r[j] == rt[j - 1]);
            } else {
                assert(r[i] == rt[i - 1] && r[j] == rt[j - 1]);
            }
        }
        // map: head insert commutes with the (distinct) new key
        lemma_str_lt_asym(s[0].0, k);
        assert(r.skip(1) =~= rt);
        assert(entry_map(r) == entry_map(rt).insert(s[0].0, s[0].1));
        assert(entry_map(rt).insert(s[0].0, s[0].1) =~= entry_map(t).insert(k, d).insert(
            s[0].0,
            s[0].1,
        ));
        assert(entry_map(t).insert(k, d).insert(s[0].0, s[0].1) =~= entry_map(t).insert(
            s[0].0,
            s[0].1,
        ).insert(k, d));
        assert(entry_map(s) == entry_map(t).insert(s[0].0, s[0].1));
        assert forall|x: Seq<char>| all_keys_gt(x, s) && str_lt(x, k) implies #[trigger]
            all_keys_gt(x, r) by {
            assert(all_keys_gt(x, t));
            assert(all_keys_gt(x, rt));
            assert forall|i: int| 0 <= i < r.len() implies str_lt(x, r[i].0) by {
                if i == 0 {
                    assert(r[0] == s[0]);
                } else {
                    assert(r[i] == rt[i - 1]);
                }
            }
        }
        assert forall|i: int| 0 <= i < r.len() implies (#[trigger] r[i].0) == k || exists|j: int|
            0 <= j < s.len() && s[j].0 == r[i].0 by {
            if i == 0 {
                assert(s[0].0 == r[0].0);
            } else {
                assert(r[i] == rt[i - 1]);
                if rt[i - 1].0 != k {
                    let j = choose|j: int| 0 <= j < t.len() && t[j].0 == rt[i - 1].0;
                    assert(s[j + 1].0 == r[i].0);
                }
            }
        }
    } else if k == s[0].0 {
        let t = s.skip(1);
        assert(r == seq![(k, d)] + t);
        assert(all_keys_gt(k, t));
        assert forall|i: int, j: int| 0 <= i < j < r.len() implies str_lt(r[i].0, r[j].0) by {
            if i == 0 {
                assert(r[j] == t[j - 1]);
            } else {
                assert(r[i] == t[i - 1] && r[j] == t[j - 1]);
            }
        }
        assert(r.skip(1) =~= t);
        assert(entry_map(r) == entry_map(t).insert(k, d));
        assert(entry_map(s).insert(k, d) =~= entry_map(t).insert(s[0].0, s[0].1).insert(k, d));
        assert(entry_map(t).insert(s[0].0, s[0].1).insert(k, d) =~= entry_map(t).insert(k, d));
        assert forall|x: Seq<char>| all_keys_gt(x, s) && str_lt(x, k) implies #[trigger]
            all_keys_gt(x, r) by {
            assert forall|i: int| 0 <= i < r.len() implies str_lt(x, r[i].0) by {
                if i > 0 {
                    assert(r[i] == s[i]);
                }
            }
        }
        assert forall|i: int| 0 <= i < r.len() implies (#[trigger] r[i].0) == k || exists|j: int|
            0 <= j < s.len() && s[j].0 == r[i].0 by {
            if i > 0 {
                assert(s[i].0 == r[i].0);
            }
        }
    } else {
        lemma_str_lt_trichotomy(k, s[0].0);
        assert(str_lt(k, s[0].0));
        assert(r == seq![(k, d)] + s);
        assert(all_keys_gt(k, s)) by {
            assert forall|i: int| 0 <= i < s.len() implies str_lt(k, s[i].0) by {
                if i > 0 {
                    lemma_str_lt_trans(k, s[0].0, s[i].0);
                }
            }
        }
        assert forall|i: int, j: int| 0 <= i < j < r.len() implies str_lt(r[i].0, r[j].0) by {
            if i == 0 {
                assert(r[j] == s[j - 1]);
            } else {
                assert(r[i] == s[i - 1] && r[j] == s[j - 1]);
            }
        }
        assert(r.skip(1) =~= s);
        assert(entry_map(r) == entry_map(s).insert(k, d));
        assert forall|x: Seq<char>| all_keys_gt(x, s) && str_lt(x, k) implies #[trigger]
            all_keys_gt(x, r) by {
            assert forall|i: int| 0 <= i < r.len() implies str_lt(x, r[i].0) by {
                if i > 0 {
                    assert(r[i] == s[i - 1]);
                }
            }
        }
        assert forall|i: int| 0 <= i < r.len() implies (#[trigger] r[i].0) == k || exists|j: int|
            0 <= j < s.len() && s[j].0 == r[i].0 by {
            if i > 0 {
                assert(s[i - 1].0 == r[i].0);
            }
        }
    }
}

/// In a well-formed sequence, each entry's key looks up to its value, and
/// every key of the map comes from some entry.
pub proof fn lemma_entry_map_props(s: Seq<(Seq<char>, PathEntry)>)
    requires
        wf_entry_seq(s),
    ensures
        forall|i: int| 0 <= i < s.len() ==> entry_map(s).contains_key(#[trigger] s[i].0)
            && entry_map(s)[s[i].0] == s[i].1,
        forall|p: Seq<char>| entry_map(s).contains_key(p) ==> exists|i: int|
            0 <= i < s.len() && s[i].0 == p,
    decreases s.len(),
{
    if s.len() > 0 {
        let t = s.skip(1);
        assert(forall|i: int, j: int| 0 <= i < j < t.len() ==> t[i] == s[i + 1] && t[j] == s[j + 1]
            && str_lt(t[i].0, t[j].0));
        lemma_entry_map_props(t);
        assert forall|i: int| 0 <= i < s.len() implies entry_map(s).contains_key(
            #[trigger] s[i].0,
        ) && entry_map(s)[s[i].0] == s[i].1 by {
            if i > 0 {
                assert(t[i - 1] == s[i]);
                assert(str_lt(s[0].0, s[i].0));
                lemma_str_lt_asym(s[0].0, s[i].0);
                assert(s[i].0 != s[0].0);
            }
        }
        assert forall|p: Seq<char>| entry_map(s).contains_key(p) implies exists|i: int|
            0 <= i < s.len() && s[i].0 == p by {
            if p != s[0].0 {
                assert(entry_map(t).contains_key(p));
                let i = choose|i: int| 0 <= i < t.len() && t[i].0 == p;
                assert(s[i + 1].0 == p);
            }
        }
    }
}

/// Insert one entry into a sorted entry vector, replacing any entry with an
/// equal path.
pub fn insert_entry(v: &mut Vec<SnapshotEntry>, path: String, entry: PathEntry)
    ensures
        entries_view(final(v)@) == insert_entry_spec(entries_view(old(v)@), path@, entry),
{
    let ghost s = entries_view(old(v)@);
    let mut i: usize = 0;
    let mut stop = false;
    let mut found = false;
    while !stop
        invariant
            0 <= i <= v.len(),
            v@ == old(v)@,
            s == entries_view(v@),
            forall|j: int| 0 <= j < i ==> str_lt(#[trigger] s[j].0, path@),
            stop ==> (i == v.len() || !str_lt(s[i as int].0, path@)),
            stop ==> (found <==> (i < v.len() && s[i as int].0 == path@)),
        decreases v.len() - i + (if stop { 0int } else { 1int }),
    {
        if i == v.len() {
            stop = true;
            found = false;
        } else {
            let c = cmp_str(v[i].path.as_str(), path.as_str());
            assert(v@[i as int].path@ == s[i as int].0);
            if c == -1 {
                i = i + 1;
            } else {
                stop = true;
                found = c == 0;
            }
        }
    }
    proof {
        lemma_insert_entry_at(s, path@, entry, i as int);
    }
    if found {
        v.remove(i);
        v.insert(i, SnapshotEntry { path, entry });
        proof {
            assert(entries_view(v@) =~= s.update(i as int, (path@, entry)));
        }
    } else {
        v.insert(i, SnapshotEntry { path, entry });
        proof {
            assert(entries_view(v@) =~= s.subrange(0, i as int) + seq![(path@, entry)] + s.skip(
                i as int,
            ));
        }
    }
}

} // verus!
