//! The reconciler: classifying, path by path, how two snapshots relate.
//!
//! [`reconcile`] merges the two sorted entry lists and assigns every path
//! that exists on either side exactly one [`Outcome`]. The report is sorted
//! by path, so its content is a pure function of the two snapshots.

use vstd::prelude::*;
use crate::model::PathEntry;
use crate::model::Snapshot;
use crate::model::entry_map;
use crate::model::wf_entry_seq;
use crate::model::lemma_entry_map_props;
use crate::order::str_lt;
use crate::order::lemma_str_lt_asym;
use crate::order::lemma_str_lt_trans;
use crate::order::lemma_str_lt_trichotomy;
use crate::order::cmp_str;

verus! {

/// The verdict for a single path.
///
/// `Conflict` means the two sides differ although their modification times
/// are equal (size, permissions or type diverge); it is a valid result to
/// surface, never auto-resolved.
#[derive(Clone, Copy, PartialEq, Eq, Structural, Debug)]
pub enum Outcome {
    Identical,
    ANewer,
    BNewer,
    Conflict,
    MissingFromA,
    MissingFromB,
}

/// One line of a reconciliation report: a path and its verdict.
pub struct ReportEntry {
    pub path: String,
    pub outcome: Outcome,
}

/// The mathematical view of a report: a sequence of (path, outcome) pairs.
pub open spec fn report_view(s: Seq<ReportEntry>) -> Seq<(Seq<char>, Outcome)> {
    s.map_values(|r: ReportEntry| (r.path@, r.outcome))
}

/// The verdict for a path present on both sides: equal metadata is
/// `Identical`; otherwise the newer side wins; equal times with differing
/// metadata is a `Conflict`.
pub open spec fn classify(a: PathEntry, b: PathEntry) -> Outcome {
    if a == b {
        Outcome::Identical
    } else if a.mod_time > b.mod_time {
        Outcome::ANewer
    } else if a.mod_time < b.mod_time {
        Outcome::BNewer
    } else {
        Outcome::Conflict
    }
}

/// Compare the metadata of a path present on both sides.
pub fn classify_entries(a: &PathEntry, b: &PathEntry) -> (o: Outcome)
    ensures
        o == classify(*a, *b),
{
    if *a == *b {
        Outcome::Identical
    } else if a.mod_time > b.mod_time {
        Outcome::ANewer
    } else if a.mod_time < b.mod_time {
        Outcome::BNewer
    } else {
        Outcome::Conflict
    }
}

/// The report produced from two sorted entry sequences: a merge that emits
/// one (path, outcome) pair per step, taking the smaller head first.
pub open spec fn reconcile_spec(
    a: Seq<(Seq<char>, PathEntry)>,
    b: Seq<(Seq<char>, PathEntry)>,
) -> Seq<(Seq<char>, Outcome)>
    decreases a.len() + b.len(),
{
    if a.len() == 0 && b.len() == 0 {
        Seq::empty()
    } else if b.len() == 0 {
        seq![(a[0].0, Outcome::MissingFromB)] + reconcile_spec(a.skip(1), b)
    } else if a.len() == 0 {
        seq![(b[0].0, Outcome::MissingFromA)] + reconcile_spec(a, b.skip(1))
    } else if str_lt(a[0].0, b[0].0) {
        seq![(a[0].0, Outcome::MissingFromB)] + reconcile_spec(a.skip(1), b)
    } else if str_lt(b[0].0, a[0].0) {
        seq![(b[0].0, Outcome::MissingFromA)] + reconcile_spec(a, b.skip(1))
    } else {
        seq![(a[0].0, classify(a[0].1, b[0].1))] + reconcile_spec(a.skip(1), b.skip(1))
    }
}

/// Produce the reconciliation report for two snapshots.
///
/// The report is exactly `reconcile_spec` of the two entry views: sorted by
/// path, with one verdict per path of either side. It is a pure function of
/// the snapshots, so repeated runs agree.
pub fn reconcile(a: &Snapshot, b: &Snapshot) -> (r: Vec<ReportEntry>)
    ensures
        report_view(r@) == reconcile_spec(a.view_entries(), b.view_entries()),
{
    let ghost av = a.view_entries();
    let ghost bv = b.view_entries();
    let mut out: Vec<ReportEntry> = Vec::new();
    let mut i: usize = 0;
    let mut j: usize = 0;
    let a_len = a.entries.len();
    let b_len = b.entries.len();
    proof {
        assert(av.skip(0) =~= av);
        assert(bv.skip(0) =~= bv);
        assert(report_view(out@) + reconcile_spec(av, bv) =~= reconcile_spec(av, bv));
    }
    while i < a_len || j < b_len
        invariant
            i <= a_len,
            j <= b_len,
            a_len == a.entries.len(),
            b_len == b.entries.len(),
            av == a.view_entries(),
            bv == b.view_entries(),
            report_view(out@) + reconcile_spec(av.skip(i as int), bv.skip(j as int))
                == reconcile_spec(av, bv),
        decreases (a_len - i) + (b_len - j),
    {
        let ghost ra = av.skip(i as int);
        let ghost rb = bv.skip(j as int);
        proof {
            assert(ra.len() == av.len() - i);
            assert(rb.len() == bv.len() - j);
            if i < a_len {
                assert(ra[0] == av[i as int]);
                assert(av[i as int] == (a.entries@[i as int].path@, a.entries@[i as int].entry));
                assert(ra.skip(1) =~= av.skip(i + 1));
            }
            if j < b_len {
                assert(rb[0] == bv[j as int]);
                assert(bv[j as int] == (b.entries@[j as int].path@, b.entries@[j as int].entry));
                assert(rb.skip(1) =~= bv.skip(j + 1));
            }
        }
        if j == b_len {
            let e = ReportEntry {
                path: a.entries[i].path.clone(),
                outcome: Outcome::MissingFromB,
            };
            out.push(e);
            proof {
                assert(report_view(out@) =~= report_view(out@.drop_last()) + seq![
                    (ra[0].0, Outcome::MissingFromB),
                ]);
                assert(report_view(out@) + reconcile_spec(av.skip(i + 1), rb) =~= (report_view(
                    out@.drop_last(),
                ) + reconcile_spec(ra, rb)));
            }
            i = i + 1;
        } else if i == a_len {
            let e = ReportEntry {
                path: b.entries[j].path.clone(),
                outcome: Outcome::MissingFromA,
            };
            out.push(e);
            proof {
                assert(report_view(out@) =~= report_view(out@.drop_last()) + seq![
                    (rb[0].0, Outcome::MissingFromA),
                ]);
                assert(report_view(out@) + reconcile_spec(ra, bv.skip(j + 1)) =~= (report_view(
                    out@.drop_last(),
                ) + reconcile_spec(ra, rb)));
            }
            j = j + 1;
        } else {
            let c = cmp_str(a.entries[i].path.as_str(), b.entries[j].path.as_str());
            if c == -1 {
                let e = ReportEntry {
                    path: a.entries[i].path.clone(),
                    outcome: Outcome::MissingFromB,
                };
                out.push(e);
                proof {
                    assert(str_lt(ra[0].0, rb[0].0));
                    assert(report_view(out@) =~= report_view(out@.drop_last()) + seq![
                        (ra[0].0, Outcome::MissingFromB),
                    ]);
                    assert(report_view(out@) + reconcile_spec(av.skip(i + 1), rb) =~= (report_view(
                        out@.drop_last(),
                    ) + reconcile_spec(ra, rb)));
                }
                i = i + 1;
            } else if c == 1 {
                let e = ReportEntry {
                    path: b.entries[j].path.clone(),
                    outcome: Outcome::MissingFromA,
                };
                out.push(e);
                proof {
                    assert(str_lt(rb[0].0, ra[0].0));
                    lemma_str_lt_asym(rb[0].0, ra[0].0);
                    assert(report_view(out@) =~= report_view(out@.drop_last()) + seq![
                        (rb[0].0, Outcome::MissingFromA),
                    ]);
                    assert(report_view(out@) + reconcile_spec(ra, bv.skip(j + 1)) =~= (report_view(
                        out@.drop_last(),
                    ) + reconcile_spec(ra, rb)));
                }
                j = j + 1;
            } else {
                let o = classify_entries(&a.entries[i].entry, &b.entries[j].entry);
                let e = ReportEntry { path: a.entries[i].path.clone(), outcome: o };
                out.push(e);
                proof {
                    assert(ra[0].0 == rb[0].0);
                    assert(!str_lt(ra[0].0, rb[0].0));
                    assert(!str_lt(rb[0].0, ra[0].0));
                    assert(report_view(out@) =~= report_view(out@.drop_last()) + seq![
                        (ra[0].0, classify(ra[0].1, rb[0].1)),
                    ]);
                    assert(report_view(out@) + reconcile_spec(av.skip(i + 1), bv.skip(j + 1))
                        =~= (report_view(out@.drop_last()) + reconcile_spec(ra, rb)));
                }
                i = i + 1;
                j = j + 1;
            }
        }
    }
    proof {
        assert(av.skip(i as int).len() == 0);
        assert(bv.skip(j as int).len() == 0);
        assert(reconcile_spec(av.skip(i as int), bv.skip(j as int)) =~= Seq::<
            (Seq<char>, Outcome),
        >::empty());
        assert(report_view(out@) + reconcile_spec(av.skip(i as int), bv.skip(j as int))
            =~= report_view(out@));
    }
    out
}

/// The verdict owed at path `p` given the two snapshot maps.
pub open spec fn spec_outcome(
    ma: Map<Seq<char>, PathEntry>,
    mb: Map<Seq<char>, PathEntry>,
    p: Seq<char>,
) -> Outcome {
    if ma.contains_key(p) && mb.contains_key(p) {
        classify(ma[p], mb[p])
    } else if ma.contains_key(p) {
        Outcome::MissingFromB
    } else {
        Outcome::MissingFromA
    }
}

/// Partition completeness and per-path correctness: for well-formed inputs
/// the report's paths are strictly sorted (so no path appears twice), they
/// are exactly the union of the two key sets, and each path carries the
/// verdict owed by the two maps.
pub proof fn lemma_reconcile_partition(
    a: Seq<(Seq<char>, PathEntry)>,
    b: Seq<(Seq<char>, PathEntry)>,
)
    requires
        wf_entry_seq(a),
        wf_entry_seq(b),
    ensures
        forall|i: int, j: int| 0 <= i < j < reconcile_spec(a, b).len() ==> str_lt(
            reconcile_spec(a, b)[i].0,
            reconcile_spec(a, b)[j].0,
        ),
        forall|i: int| 0 <= i < reconcile_spec(a, b).len() ==> entry_map(a).contains_key(
            #[trigger] reconcile_spec(a, b)[i].0,
        ) || entry_map(b).contains_key(reconcile_spec(a, b)[i].0),
        forall|p: Seq<char>| entry_map(a).contains_key(p) || entry_map(b).contains_key(p)
            ==> exists|i: int| 0 <= i < reconcile_spec(a, b).len() && reconcile_spec(a, b)[i].0
            == p,
        forall|i: int| 0 <= i < reconcile_spec(a, b).len() ==> (#[trigger] reconcile_spec(
            a,
            b,
        )[i].1) == spec_outcome(entry_map(a), entry_map(b), reconcile_spec(a, b)[i].0),
    decreases a.len() + b.len(),
{
    let r = reconcile_spec(a, b);
    let ma = entry_map(a);
    let mb = entry_map(b);
    lemma_entry_map_props(a);
    lemma_entry_map_props(b);
    if a.len() == 0 && b.len() == 0 {
        assert(ma =~= Map::<Seq<char>, PathEntry>::empty());
        assert(mb =~= Map::<Seq<char>, PathEntry>::empty());
    } else if b.len() == 0 || (a.len() > 0 && b.len() > 0 && str_lt(a[0].0, b[0].0)) {
        let a1 = a.skip(1);
        assert(forall|i: int, j: int| 0 <= i < j < a1.len() ==> a1[i] == a[i + 1] && a1[j] == a[j
            + 1] && str_lt(a1[i].0, a1[j].0));
        lemma_reconcile_partition(a1, b);
        lemma_entry_map_props(a1);
        let r1 = reconcile_spec(a1, b);
        assert(r == seq![(a[0].0, Outcome::MissingFromB)] + r1);
        // every key of the sub-report is strictly above the head key
        assert forall|i: int| 0 <= i < r1.len() implies str_lt(a[0].0, #[trigger] r1[i].0) by {
            if entry_map(a1).contains_key(r1[i].0) {
                let x = choose|x: int| 0 <= x < a1.len() && a1[x].0 == r1[i].0;
                assert(a[x + 1].0 == r1[i].0);
                assert(str_lt(a[0].0, a[x + 1].0));
            } else {
                assert(mb.contains_key(r1[i].0));
                let x = choose|x: int| 0 <= x < b.len() && b[x].0 == r1[i].0;
                assert(b.len() > 0 && str_lt(a[0].0, b[0].0));
                if x > 0 {
                    lemma_str_lt_trans(a[0].0, b[0].0, b[x].0);
                }
            }
        }
        assert forall|i: int, j: int| 0 <= i < j < r.len() implies str_lt(r[i].0, r[j].0) by {
            if i == 0 {
                assert(r[j] == r1[j - 1]);
            } else {
                assert(r[i] == r1[i - 1] && r[j] == r1[j - 1]);
            }
        }
        // the head key is absent from b and maps to a[0].1 in a
        assert(ma == entry_map(a1).insert(a[0].0, a[0].1));
        if mb.contains_key(a[0].0) {
            let x = choose|x: int| 0 <= x < b.len() && b[x].0 == a[0].0;
            if x > 0 {
                lemma_str_lt_trans(a[0].0, b[0].0, b[x].0);
            }
            lemma_str_lt_asym(a[0].0, b[x].0);
            assert(false);
        }
        assert(r[0].1 == spec_outcome(ma, mb, r[0].0));
        // sub-report verdicts are unaffected by adding the head binding
        assert forall|i: int| 1 <= i < r.len() implies (#[trigger] r[i].1) == spec_outcome(
            ma,
            mb,
            r[i].0,
        ) by {
            assert(r[i] == r1[i - 1]);
            assert(str_lt(a[0].0, r1[i - 1].0));
            lemma_str_lt_asym(a[0].0, r1[i - 1].0);
            assert(r1[i - 1].0 != a[0].0);
            assert(spec_outcome(ma, mb, r1[i - 1].0) == spec_outcome(
                entry_map(a1),
                mb,
                r1[i - 1].0,
            ));
        }
        // coverage
        assert forall|p: Seq<char>| ma.contains_key(p) || mb.contains_key(p) implies exists|i: int|
            0 <= i < r.len() && r[i].0 == p by {
            if p == a[0].0 {
                assert(r[0].0 == p);
            } else {
                assert(entry_map(a1).contains_key(p) || mb.contains_key(p));
                let i = choose|i: int| 0 <= i < r1.len() && r1[i].0 == p;
                assert(r[i + 1].0 == p);
            }
        }
        assert forall|i: int| 0 <= i < r.len() implies ma.contains_key(#[trigger] r[i].0)
            || mb.contains_key(r[i].0) by {
            if i > 0 {
                assert(r[i] == r1[i - 1]);
                if entry_map(a1).contains_key(r1[i - 1].0) {
                    let x = choose|x: int| 0 <= x < a1.len() && a1[x].0 == r1[i - 1].0;
                    assert(a[x + 1].0 == r1[i - 1].0);
                    assert(ma.contains_key(a[x + 1].0));
                }
            }
        }
    } else if a.len() == 0 || (a.len() > 0 && b.len() > 0 && str_lt(b[0].0, a[0].0)) {
        let b1 = b.skip(1);
        assert(forall|i: int, j: int| 0 <= i < j < b1.len() ==> b1[i] == b[i + 1] && b1[j] == b[j
            + 1] && str_lt(b1[i].0, b1[j].0));
        lemma_reconcile_partition(a, b1);
        lemma_entry_map_props(b1);
        let r1 = reconcile_spec(a, b1);
        assert(r == seq![(b[0].0, Outcome::MissingFromA)] + r1);
        assert forall|i: int| 0 <= i < r1.len() implies str_lt(b[0].0, #[trigger] r1[i].0) by {
            if entry_map(b1).contains_key(r1[i].0) {
                let x = choose|x: int| 0 <= x < b1.len() && b1[x].0 == r1[i].0;
                assert(b[x + 1].0 == r1[i].0);
                assert(str_lt(b[0].0, b[x + 1].0));
            } else {
                assert(ma.contains_key(r1[i].0));
                let x = choose|x: int| 0 <= x < a.len() && a[x].0 == r1[i].0;
                assert(a.len() > 0 && str_lt(b[0].0, a[0].0));
                if x > 0 {
                    lemma_str_lt_trans(b[0].0, a[0].0, a[x].0);
                }
            }
        }
        assert forall|i: int, j: int| 0 <= i < j < r.len() implies str_lt(r[i].0, r[j].0) by {
            if i == 0 {
                assert(r[j] == r1[j - 1]);
            } else {
                assert(r[i] == r1[i - 1] && r[j] == r1[j - 1]);
            }
        }
        assert(mb == entry_map(b1).insert(b[0].0, b[0].1));
        if ma.contains_key(b[0].0) {
            let x = choose|x: int| 0 <= x < a.len() && a[x].0 == b[0].0;
            if x > 0 {
                lemma_str_lt_trans(b[0].0, a[0].0, a[x].0);
            }
            lemma_str_lt_asym(b[0].0, a[x].0);
            assert(false);
        }
        assert(r[0].1 == spec_outcome(ma, mb, r[0].0));
        assert forall|i: int| 1 <= i < r.len() implies (#[trigger] r[i].1) == spec_outcome(
            ma,
            mb,
            r[i].0,
        ) by {
            assert(r[i] == r1[i - 1]);
            assert(str_lt(b[0].0, r1[i - 1].0));
            lemma_str_lt_asym(b[0].0, r1[i - 1].0);
            assert(r1[i - 1].0 != b[0].0);
            assert(spec_outcome(ma, mb, r1[i - 1].0) == spec_outcome(
                ma,
                entry_map(b1),
                r1[i - 1].0,
            ));
        }
        assert forall|p: Seq<char>| ma.contains_key(p) || mb.contains_key(p) implies exists|i: int|
            0 <= i < r.len() && r[i].0 == p by {
            if p == b[0].0 {
                assert(r[0].0 == p);
            } else {
                assert(ma.contains_key(p) || entry_map(b1).contains_key(p));
                let i = choose|i: int| 0 <= i < r1.len() && r1[i].0 == p;
                assert(r[i + 1].0 == p);
            }
        }
        assert forall|i: int| 0 <= i < r.len() implies ma.contains_key(#[trigger] r[i].0)
            || mb.contains_key(r[i].0) by {
            if i > 0 {
                assert(r[i] == r1[i - 1]);
                if entry_map(b1).contains_key(r1[i - 1].0) {
                    let x = choose|x: int| 0 <= x < b1.len() && b1[x].0 == r1[i - 1].0;
                    assert(b[x + 1].0 == r1[i - 1].0);
                    assert(mb.contains_key(b[x + 1].0));
                }
            }
        }
    } else {
        // both nonempty, neither head below the other: equal heads
        lemma_str_lt_trichotomy(a[0].0, b[0].0);
        assert(a[0].0 == b[0].0);
        let a1 = a.skip(1);
        let b1 = b.skip(1);
        assert(forall|i: int, j: int| 0 <= i < j < a1.len() ==> a1[i] == a[i + 1] && a1[j] == a[j
            + 1] && str_lt(a1[i].0, a1[j].0));
        assert(forall|i: int, j: int| 0 <= i < j < b1.len() ==> b1[i] == b[i + 1] && b1[j] == b[j
            + 1] && str_lt(b1[i].0, b1[j].0));
        lemma_reconcile_partition(a1, b1);
        lemma_entry_map_props(a1);
        lemma_entry_map_props(b1);
        let r1 = reconcile_spec(a1, b1);
        assert(r == seq![(a[0].0, classify(a[0].1, b[0].1))] + r1);
        assert forall|i: int| 0 <= i < r1.len() implies str_lt(a[0].0, #[trigger] r1[i].0) by {
            if entry_map(a1).contains_key(r1[i].0) {
                let x = choose|x: int| 0 <= x < a1.len() && a1[x].0 == r1[i].0;
                assert(a[x + 1].0 == r1[i].0);
                assert(str_lt(a[0].0, a[x + 1].0));
            } else {
                assert(entry_map(b1).contains_key(r1[i].0));
                let x = choose|x: int| 0 <= x < b1.len() && b1[x].0 == r1[i].0;
                assert(b[x + 1].0 == r1[i].0);
                assert(str_lt(b[0].0, b[x + 1].0));
            }
        }
        assert forall|i: int, j: int| 0 <= i < j < r.len() implies str_lt(r[i].0, r[j].0) by {
            if i == 0 {
                assert(r[j] == r1[j - 1]);
            } else {
                assert(r[i] == r1[i - 1] && r[j] == r1[j - 1]);
            }
        }
        assert(ma == entry_map(a1).insert(a[0].0, a[0].1));
        assert(mb == entry_map(b1).insert(b[0].0, b[0].1));
        assert(r[0].1 == spec_outcome(ma, mb, r[0].0));
        assert forall|i: int| 1 <= i < r.len() implies (#[trigger] r[i].1) == spec_outcome(
            ma,
            mb,
            r[i].0,
        ) by {
            assert(r[i] == r1[i - 1]);
            assert(str_lt(a[0].0, r1[i - 1].0));
            lemma_str_lt_asym(a[0].0, r1[i - 1].0);
            assert(r1[i - 1].0 != a[0].0);
            assert(spec_outcome(ma, mb, r1[i - 1].0) == spec_outcome(
                entry_map(a1),
                entry_map(b1),
                r1[i - 1].0,
            ));
        }
        assert forall|p: Seq<char>| ma.contains_key(p) || mb.contains_key(p) implies exists|i: int|
            0 <= i < r.len() && r[i].0 == p by {
            if p == a[0].0 {
                assert(r[0].0 == p);
            } else {
                assert(entry_map(a1).contains_key(p) || entry_map(b1).contains_key(p));
                let i = choose|i: int| 0 <= i < r1.len() && r1[i].0 == p;
                assert(r[i + 1].0 == p);
            }
        }
        assert forall|i: int| 0 <= i < r.len() implies ma.contains_key(#[trigger] r[i].0)
            || mb.contains_key(r[i].0) by {
            if i > 0 {
                assert(r[i] == r1[i - 1]);
                if entry_map(a1).contains_key(r1[i - 1].0) {
                    let x = choose|x: int| 0 <= x < a1.len() && a1[x].0 == r1[i - 1].0;
                    assert(ma.contains_key(a[x + 1].0));
                } else {
                    let x = choose|x: int| 0 <= x < b1.len() && b1[x].0 == r1[i - 1].0;
                    assert(mb.contains_key(b[x + 1].0));
                }
            }
        }
    }
}

/// What an outcome becomes when the two sides swap roles.
pub open spec fn flip(o: Outcome) -> Outcome {
    match o {
        Outcome::Identical => Outcome::Identical,
        Outcome::ANewer => Outcome::BNewer,
        Outcome::BNewer => Outcome::ANewer,
        Outcome::Conflict => Outcome::Conflict,
        Outcome::MissingFromA => Outcome::MissingFromB,
        Outcome::MissingFromB => Outcome::MissingFromA,
    }
}

/// Symmetry: reconciling (b, a) gives the same paths in the same order as
/// reconciling (a, b), with every verdict flipped: `ANewer` becomes
/// `BNewer`, `MissingFromB` becomes `MissingFromA`, and `Identical` and
/// `Conflict` stay as they are.
pub proof fn lemma_reconcile_symmetric(
    a: Seq<(Seq<char>, PathEntry)>,
    b: Seq<(Seq<char>, PathEntry)>,
)
    ensures
        reconcile_spec(b, a) == reconcile_spec(a, b).map_values(
            |p: (Seq<char>, Outcome)| (p.0, flip(p.1)),
        ),
    decreases a.len() + b.len(),
{
    let f = |p: (Seq<char>, Outcome)| (p.0, flip(p.1));
    if a.len() == 0 && b.len() == 0 {
        assert(reconcile_spec(b, a) =~= reconcile_spec(a, b).map_values(f));
    } else if b.len() == 0 {
        lemma_reconcile_symmetric(a.skip(1), b);
        assert(reconcile_spec(a, b) == seq![(a[0].0, Outcome::MissingFromB)] + reconcile_spec(
            a.skip(1),
            b,
        ));
        assert(reconcile_spec(b, a) == seq![(a[0].0, Outcome::MissingFromA)] + reconcile_spec(
            b,
            a.skip(1),
        ));
        assert(reconcile_spec(b, a) =~= reconcile_spec(a, b).map_values(f));
    } else if a.len() == 0 {
        lemma_reconcile_symmetric(a, b.skip(1));
        assert(reconcile_spec(b, a) =~= reconcile_spec(a, b).map_values(f));
    } else if str_lt(a[0].0, b[0].0) {
        lemma_str_lt_asym(a[0].0, b[0].0);
        lemma_reconcile_symmetric(a.skip(1), b);
        assert(reconcile_spec(b, a) =~= reconcile_spec(a, b).map_values(f));
    } else if str_lt(b[0].0, a[0].0) {
        lemma_str_lt_asym(b[0].0, a[0].0);
        lemma_reconcile_symmetric(a, b.skip(1));
        assert(reconcile_spec(b, a) =~= reconcile_spec(a, b).map_values(f));
    } else {
        lemma_str_lt_trichotomy(a[0].0, b[0].0);
        assert(a[0].0 == b[0].0);
        lemma_reconcile_symmetric(a.skip(1), b.skip(1));
        assert(classify(b[0].1, a[0].1) == flip(classify(a[0].1, b[0].1)));
        assert(reconcile_spec(b, a) =~= reconcile_spec(a, b).map_values(f));
    }
}

/// Determinism: a report is a pure function of the two snapshots, so two
/// reports computed from unchanged snapshots are equal.
pub proof fn lemma_reconcile_deterministic(
    a: Seq<(Seq<char>, PathEntry)>,
    b: Seq<(Seq<char>, PathEntry)>,
    r1: Seq<(Seq<char>, Outcome)>,
    r2: Seq<(Seq<char>, Outcome)>,
)
    requires
        r1 == reconcile_spec(a, b),
        r2 == reconcile_spec(a, b),
    ensures
        r1 == r2,
{
}

} // verus!
