use vstd::prelude::*;
use crate::seeder::{
    ArtifactView, RecordView, SeederError, Step, all_recorded_present, applied_records,
    early_failure, first_missing, first_missing_at, has_version, lemma_failure_sticks,
    lemma_first_missing, orphans_upto, planned_failure, planned_orphans, planned_steps,
    recorded_checksum, row_of, steps_upto, versions_ascending, versions_unique,
};

verus! {

/// A step names an up artifact and agrees with what the ledger records of it.
pub open spec fn step_agrees(
    arts: Seq<ArtifactView>,
    ledger: Seq<RecordView>,
    dry_run: bool,
    st: Step,
) -> bool {
    let i = st.index() as int;
    &&& 0 <= i < arts.len()
    &&& !arts[i].down
    &&& match st {
        Step::Apply(_) => !dry_run && recorded_checksum(ledger, arts[i].version) is None,
        Step::WouldApply(_) => dry_run && recorded_checksum(ledger, arts[i].version) is None,
        Step::AlreadyApplied(_) => recorded_checksum(ledger, arts[i].version) == Some(
            arts[i].checksum,
        ),
    }
}

/// The steps over the first `n` artifacts name artifacts below `n`, in rising
/// order, and each agrees with the ledger.
pub proof fn lemma_steps_shape(
    arts: Seq<ArtifactView>,
    ledger: Seq<RecordView>,
    dry_run: bool,
    n: nat,
)
    requires
        n <= arts.len() <= usize::MAX,
    ensures
        forall|t: int|
            0 <= t < steps_upto(arts, ledger, dry_run, n).0.len() ==> {
                let st = #[trigger] steps_upto(arts, ledger, dry_run, n).0[t];
                st.index() < n && step_agrees(arts, ledger, dry_run, st)
            },
        forall|t1: int, t2: int|
            0 <= t1 < t2 < steps_upto(arts, ledger, dry_run, n).0.len() ==> (#[trigger] steps_upto(
                arts,
                ledger,
                dry_run,
                n,
            ).0[t1]).index() < (#[trigger] steps_upto(arts, ledger, dry_run, n).0[t2]).index(),
    decreases n,
{
    if n > 0 {
        lemma_steps_shape(arts, ledger, dry_run, (n - 1) as nat);
    }
}

/// Where no mismatch stopped them, the steps over the first `n` artifacts hold
/// one step for each up artifact below `n`.
pub proof fn lemma_steps_cover(
    arts: Seq<ArtifactView>,
    ledger: Seq<RecordView>,
    dry_run: bool,
    n: nat,
    k: int,
)
    requires
        n <= arts.len() <= usize::MAX,
        0 <= k < n,
        !arts[k].down,
        steps_upto(arts, ledger, dry_run, n).1 is None,
    ensures
        exists|t: int|
            0 <= t < steps_upto(arts, ledger, dry_run, n).0.len() && (#[trigger] steps_upto(
                arts,
                ledger,
                dry_run,
                n,
            ).0[t]).index() == k,
    decreases n,
{
    let s = steps_upto(arts, ledger, dry_run, n).0;
    let prev = steps_upto(arts, ledger, dry_run, (n - 1) as nat);
    if k == n - 1 {
        assert(s[s.len() - 1].index() == k);
    } else {
        lemma_steps_cover(arts, ledger, dry_run, (n - 1) as nat, k);
        let t = choose|t: int| 0 <= t < prev.0.len() && (#[trigger] prev.0[t]).index() == k;
        assert(s[t] == prev.0[t]);
    }
}

/// The last row of `l + r` for a version is in `r` if `r` has one, else in `l`.
pub proof fn lemma_recorded_concat(l: Seq<RecordView>, r: Seq<RecordView>, v: i64)
    ensures
        recorded_checksum(l + r, v) == match recorded_checksum(r, v) {
            Some(c) => Some(c),
            None => recorded_checksum(l, v),
        },
    decreases r.len(),
{
    if r.len() == 0 {
        assert(l + r =~= l);
    } else {
        assert((l + r).drop_last() =~= l + r.drop_last());
        lemma_recorded_concat(l, r.drop_last(), v);
    }
}

/// The ledger holds a checksum for a version exactly when a row has that
/// version, and the checksum is that of such a row.
pub proof fn lemma_recorded_row(ledger: Seq<RecordView>, v: i64)
    ensures
        recorded_checksum(ledger, v) is Some <==> exists|t: int|
            0 <= t < ledger.len() && (#[trigger] ledger[t]).version == v,
        recorded_checksum(ledger, v) is Some ==> exists|t: int|
            0 <= t < ledger.len() && (#[trigger] ledger[t]).version == v && Some(ledger[t].checksum)
                == recorded_checksum(ledger, v),
    decreases ledger.len(),
{
    if ledger.len() > 0 {
        let init = ledger.drop_last();
        lemma_recorded_row(init, v);
        if ledger.last().version != v {
            if exists|t: int| 0 <= t < ledger.len() && (#[trigger] ledger[t]).version == v {
                let t = choose|t: int| 0 <= t < ledger.len() && (#[trigger] ledger[t]).version == v;
                assert(init[t] == ledger[t]);
            }
            if recorded_checksum(ledger, v) is Some {
                let t = choose|t: int|
                    0 <= t < init.len() && (#[trigger] init[t]).version == v && Some(init[t].checksum)
                        == recorded_checksum(init, v);
                assert(ledger[t] == init[t]);
            }
        } else {
            assert(ledger[ledger.len() - 1].version == v);
        }
    }
}


/// The row is written by applying one of the artifacts.
pub open spec fn row_from(arts: Seq<ArtifactView>, r: RecordView) -> bool {
    exists|i: int| 0 <= i < arts.len() && r == #[trigger] row_of(arts[i])
}

/// The row is among the rows.
pub open spec fn row_in(rows: Seq<RecordView>, r: RecordView) -> bool {
    exists|t: int| 0 <= t < rows.len() && r == #[trigger] rows[t]
}

/// Each row that the `Apply` steps write is the row of some artifact.
pub proof fn lemma_applied_rows_from_artifacts(arts: Seq<ArtifactView>, steps: Seq<Step>)
    requires
        forall|q: int| 0 <= q < steps.len() ==> (#[trigger] steps[q]).index() < arts.len(),
    ensures
        forall|t: int|
            0 <= t < applied_records(arts, steps).len() ==> row_from(
                arts,
                #[trigger] applied_records(arts, steps)[t],
            ),
    decreases steps.len(),
{
    if steps.len() > 0 {
        let init = steps.drop_last();
        assert forall|q: int| 0 <= q < init.len() implies (#[trigger] init[q]).index() < arts.len() by {
            assert(init[q] == steps[q]);
        }
        lemma_applied_rows_from_artifacts(arts, init);
        let prev = applied_records(arts, init);
        let cur = applied_records(arts, steps);
        assert forall|t: int| 0 <= t < cur.len() implies row_from(arts, #[trigger] cur[t]) by {
            if t < prev.len() {
                assert(cur[t] == prev[t]);
            } else {
                let i = steps.last().index() as int;
                assert(steps[steps.len() - 1].index() < arts.len());
                assert(cur[t] == row_of(arts[i]));
            }
        }
    }
}

/// Each `Apply` step has the row of its artifact among the rows that the steps write.
pub proof fn lemma_applied_rows_complete(arts: Seq<ArtifactView>, steps: Seq<Step>)
    ensures
        forall|q: int|
            0 <= q < steps.len() && (#[trigger] steps[q]) is Apply ==> row_in(
                applied_records(arts, steps),
                row_of(arts[steps[q].index() as int]),
            ),
    decreases steps.len(),
{
    if steps.len() > 0 {
        let init = steps.drop_last();
        lemma_applied_rows_complete(arts, init);
        let prev = applied_records(arts, init);
        let cur = applied_records(arts, steps);
        assert forall|q: int| 0 <= q < steps.len() && (#[trigger] steps[q]) is Apply implies row_in(
            cur,
            row_of(arts[steps[q].index() as int]),
        ) by {
            if q < init.len() {
                assert(init[q] == steps[q]);
                let t = choose|t: int|
                    0 <= t < prev.len() && row_of(arts[init[q].index() as int]) == #[trigger] prev[t];
                assert(cur[t] == prev[t]);
            } else {
                assert(cur[cur.len() - 1] == row_of(arts[steps[q].index() as int]));
            }
        }
    }
}

/// Where no step applies anything, no row is written.
pub proof fn lemma_no_apply_no_rows(arts: Seq<ArtifactView>, steps: Seq<Step>)
    requires
        forall|t: int| 0 <= t < steps.len() ==> !((#[trigger] steps[t]) is Apply),
    ensures
        applied_records(arts, steps) == Seq::<RecordView>::empty(),
    decreases steps.len(),
{
    if steps.len() == 0 {
        assert(applied_records(arts, steps) =~= Seq::<RecordView>::empty());
    } else {
        let init = steps.drop_last();
        assert forall|t: int| 0 <= t < init.len() implies !((#[trigger] init[t]) is Apply) by {
            assert(init[t] == steps[t]);
        }
        lemma_no_apply_no_rows(arts, init);
        assert(!(steps[steps.len() - 1] is Apply));
    }
}

/// A run stops only on a modified artifact once the checks before it pass.
pub proof fn lemma_steps_failure_kind(
    arts: Seq<ArtifactView>,
    ledger: Seq<RecordView>,
    dry_run: bool,
    n: nat,
)
    ensures
        steps_upto(arts, ledger, dry_run, n).1 is None || steps_upto(
            arts,
            ledger,
            dry_run,
            n,
        ).1 matches Some(SeederError::VersionMismatch(_)),
    decreases n,
{
    if n > 0 {
        lemma_steps_failure_kind(arts, ledger, dry_run, (n - 1) as nat);
    }
}

proof fn lemma_first_missing_exists(ledger: Seq<RecordView>, arts: Seq<ArtifactView>, n: int)
    requires
        0 <= n <= ledger.len(),
        exists|k: int| 0 <= k < n && !has_version(arts, #[trigger] ledger[k].version),
    ensures
        exists|i: int| first_missing_at(ledger, arts, i),
    decreases n,
{
    if forall|k: int| 0 <= k < n - 1 ==> has_version(arts, #[trigger] ledger[k].version) {
        assert(first_missing_at(ledger, arts, n - 1));
    } else {
        lemma_first_missing_exists(ledger, arts, n - 1);
    }
}

proof fn lemma_orphans_hold(ledger: Seq<RecordView>, arts: Seq<ArtifactView>, n: nat, i: int)
    requires
        0 <= i < n <= ledger.len(),
        !has_version(arts, ledger[i].version),
    ensures
        orphans_upto(ledger, arts, n).contains(ledger[i].version),
    decreases n,
{
    let prev = orphans_upto(ledger, arts, (n - 1) as nat);
    if i == n - 1 {
        assert(orphans_upto(ledger, arts, n).last() == ledger[i].version);
    } else {
        lemma_orphans_hold(ledger, arts, (n - 1) as nat, i);
        let t = choose|t: int| 0 <= t < prev.len() && prev[t] == ledger[i].version;
        assert(orphans_upto(ledger, arts, n)[t] == ledger[i].version);
    }
}

/// A dirty marker stops the run before any artifact is looked at: no step is
/// taken, nothing is written to the ledger, and the run fails naming the
/// marked version.
pub proof fn lemma_dirty_blocks_run(
    arts: Seq<ArtifactView>,
    ledger: Seq<RecordView>,
    v: i64,
    dry_run: bool,
    ignore_missing: bool,
)
    ensures
        planned_failure(arts, ledger, Some(v), dry_run, ignore_missing) == Some(
            SeederError::Dirty(v),
        ),
        planned_steps(arts, ledger, Some(v), dry_run, ignore_missing).len() == 0,
        applied_records(arts, planned_steps(arts, ledger, Some(v), dry_run, ignore_missing))
            == Seq::<RecordView>::empty(),
{
    lemma_no_apply_no_rows(arts, planned_steps(arts, ledger, Some(v), dry_run, ignore_missing));
}

/// A dry run applies nothing, whatever the ledger holds: no step is `Apply`
/// and no row is written.
pub proof fn lemma_dry_run_applies_nothing(
    arts: Seq<ArtifactView>,
    ledger: Seq<RecordView>,
    dirty: Option<i64>,
    ignore_missing: bool,
)
    requires
        arts.len() <= usize::MAX,
    ensures
        forall|t: int|
            0 <= t < planned_steps(arts, ledger, dirty, true, ignore_missing).len() ==> !((
            #[trigger] planned_steps(arts, ledger, dirty, true, ignore_missing)[t]) is Apply),
        applied_records(arts, planned_steps(arts, ledger, dirty, true, ignore_missing))
            == Seq::<RecordView>::empty(),
{
    lemma_steps_shape(arts, ledger, true, arts.len());
    lemma_no_apply_no_rows(arts, planned_steps(arts, ledger, dirty, true, ignore_missing));
}

/// Where the artifacts come in rising version order, the steps of a run, and
/// so the artifacts it applies, follow rising version order.
pub proof fn lemma_applied_in_version_order(
    arts: Seq<ArtifactView>,
    ledger: Seq<RecordView>,
    dirty: Option<i64>,
    dry_run: bool,
    ignore_missing: bool,
)
    requires
        arts.len() <= usize::MAX,
        versions_ascending(arts),
    ensures
        forall|t1: int, t2: int|
            0 <= t1 < t2 < planned_steps(arts, ledger, dirty, dry_run, ignore_missing).len() ==> arts[(
            #[trigger] planned_steps(arts, ledger, dirty, dry_run, ignore_missing)[t1]).index() as int].version
                < arts[(#[trigger] planned_steps(
                arts,
                ledger,
                dirty,
                dry_run,
                ignore_missing,
            )[t2]).index() as int].version,
{
    lemma_steps_shape(arts, ledger, dry_run, arts.len());
}

/// An up artifact whose recorded checksum differs from its own stops the run
/// with `VersionMismatch` of its version, provided the checks before the
/// artifacts pass and no earlier artifact was modified; no step is taken on it
/// or on any artifact after it.
pub proof fn lemma_tamper_detected(
    arts: Seq<ArtifactView>,
    ledger: Seq<RecordView>,
    dry_run: bool,
    ignore_missing: bool,
    i: int,
)
    requires
        arts.len() <= usize::MAX,
        0 <= i < arts.len(),
        !arts[i].down,
        recorded_checksum(ledger, arts[i].version) is Some,
        recorded_checksum(ledger, arts[i].version) != Some(arts[i].checksum),
        forall|k: int|
            0 <= k < i && !arts[k].down ==> (#[trigger] recorded_checksum(ledger, arts[k].version)
                is None || recorded_checksum(ledger, arts[k].version) == Some(arts[k].checksum)),
        early_failure(arts, ledger, None, ignore_missing) is None,
    ensures
        planned_failure(arts, ledger, None, dry_run, ignore_missing) == Some(
            SeederError::VersionMismatch(arts[i].version),
        ),
        forall|t: int|
            0 <= t < planned_steps(arts, ledger, None, dry_run, ignore_missing).len() ==> (
            #[trigger] planned_steps(arts, ledger, None, dry_run, ignore_missing)[t]).index() < i,
{
    lemma_clean_prefix(arts, ledger, dry_run, i as nat);
    lemma_steps_shape(arts, ledger, dry_run, i as nat);
    lemma_failure_sticks(arts, ledger, dry_run, (i + 1) as nat, arts.len());
}

proof fn lemma_clean_prefix(arts: Seq<ArtifactView>, ledger: Seq<RecordView>, dry_run: bool, n: nat)
    requires
        n <= arts.len(),
        forall|k: int|
            0 <= k < n && !arts[k].down ==> (#[trigger] recorded_checksum(ledger, arts[k].version)
                is None || recorded_checksum(ledger, arts[k].version) == Some(arts[k].checksum)),
    ensures
        steps_upto(arts, ledger, dry_run, n).1 is None,
    decreases n,
{
    if n > 0 {
        lemma_clean_prefix(arts, ledger, dry_run, (n - 1) as nat);
        let k = n - 1;
        if !arts[k].down {
            assert(recorded_checksum(ledger, arts[k].version) is None || recorded_checksum(
                ledger,
                arts[k].version,
            ) == Some(arts[k].checksum));
        }
    }
}

/// A ledger row without an artifact of its version fails a run that checks
/// for missing artifacts, with `VersionMissing` of a version that has no
/// artifact; a run that ignores missing artifacts does not fail on it and
/// reports the row's version as an orphan.
pub proof fn lemma_orphan_or_missing(
    arts: Seq<ArtifactView>,
    ledger: Seq<RecordView>,
    dry_run: bool,
    i: int,
)
    requires
        0 <= i < ledger.len(),
        !has_version(arts, ledger[i].version),
    ensures
        planned_failure(arts, ledger, None, dry_run, false) == Some(
            SeederError::VersionMissing(first_missing(ledger, arts)),
        ),
        !has_version(arts, first_missing(ledger, arts)),
        planned_steps(arts, ledger, None, dry_run, false).len() == 0,
        !(planned_failure(arts, ledger, None, dry_run, true) matches Some(
            SeederError::VersionMissing(_),
        )),
        planned_orphans(arts, ledger, None, true).contains(ledger[i].version),
{
    lemma_first_missing_exists(ledger, arts, ledger.len() as int);
    let j = choose|j: int| first_missing_at(ledger, arts, j);
    lemma_first_missing(ledger, arts, j);
    lemma_steps_failure_kind(arts, ledger, dry_run, arts.len());
    lemma_orphans_hold(ledger, arts, ledger.len(), i);
}

/// Where the ledger holds every up artifact with its own checksum, the steps
/// over the first `n` artifacts all find it already applied.
proof fn lemma_all_recorded(arts: Seq<ArtifactView>, ledger: Seq<RecordView>, dry_run: bool, n: nat)
    requires
        n <= arts.len() <= usize::MAX,
        forall|k: int|
            0 <= k < arts.len() && !arts[k].down ==> #[trigger] recorded_checksum(
                ledger,
                arts[k].version,
            ) == Some(arts[k].checksum),
    ensures
        steps_upto(arts, ledger, dry_run, n).1 is None,
        forall|t: int|
            0 <= t < steps_upto(arts, ledger, dry_run, n).0.len() ==> (#[trigger] steps_upto(
                arts,
                ledger,
                dry_run,
                n,
            ).0[t]) is AlreadyApplied,
    decreases n,
{
    if n > 0 {
        lemma_all_recorded(arts, ledger, dry_run, (n - 1) as nat);
        let k = n - 1;
        if !arts[k].down {
            assert(recorded_checksum(ledger, arts[k].version) == Some(arts[k].checksum));
        }
    }
}

/// After a run that applied its artifacts without failing, a second run on the
/// same artifacts, with the rows that the first wrote added to the ledger,
/// fails on nothing and applies nothing: every step finds its artifact already
/// applied.
pub proof fn lemma_rerun_applies_nothing(
    arts: Seq<ArtifactView>,
    ledger: Seq<RecordView>,
    ignore_missing: bool,
)
    requires
        arts.len() <= usize::MAX,
        versions_unique(arts),
        planned_failure(arts, ledger, None, false, ignore_missing) is None,
    ensures
        planned_failure(
            arts,
            ledger + applied_records(arts, planned_steps(arts, ledger, None, false, ignore_missing)),
            None,
            false,
            ignore_missing,
        ) is None,
        forall|t: int|
            0 <= t < planned_steps(
                arts,
                ledger + applied_records(
                    arts,
                    planned_steps(arts, ledger, None, false, ignore_missing),
                ),
                None,
                false,
                ignore_missing,
            ).len() ==> (#[trigger] planned_steps(
                arts,
                ledger + applied_records(
                    arts,
                    planned_steps(arts, ledger, None, false, ignore_missing),
                ),
                None,
                false,
                ignore_missing,
            )[t]) is AlreadyApplied,
{
    let s1 = planned_steps(arts, ledger, None, false, ignore_missing);
    let rows = applied_records(arts, s1);
    let ledger2 = ledger + rows;
    assert(early_failure(arts, ledger, None, ignore_missing) is None);
    assert(s1 == steps_upto(arts, ledger, false, arts.len()).0);
    lemma_steps_shape(arts, ledger, false, arts.len());
    lemma_applied_rows_from_artifacts(arts, s1);
    lemma_applied_rows_complete(arts, s1);
    assert forall|k: int| 0 <= k < arts.len() && !arts[k].down implies #[trigger] recorded_checksum(
        ledger2,
        arts[k].version,
    ) == Some(arts[k].checksum) by {
        let v = arts[k].version;
        lemma_steps_cover(arts, ledger, false, arts.len(), k);
        let t = choose|t: int| 0 <= t < s1.len() && (#[trigger] s1[t]).index() == k;
        assert(step_agrees(arts, ledger, false, s1[t]));
        lemma_recorded_concat(ledger, rows, v);
        lemma_recorded_row(rows, v);
        if recorded_checksum(rows, v) is Some {
            let r = choose|r: int|
                0 <= r < rows.len() && (#[trigger] rows[r]).version == v && Some(rows[r].checksum)
                    == recorded_checksum(rows, v);
            assert(row_from(arts, rows[r]));
            let i = choose|i: int| 0 <= i < arts.len() && rows[r] == #[trigger] row_of(arts[i]);
            assert(i == k);
        } else if s1[t] is Apply {
            assert(row_in(rows, row_of(arts[k])));
            let r = choose|r: int| 0 <= r < rows.len() && row_of(arts[k]) == #[trigger] rows[r];
            assert(rows[r].version == v);
        }
    }
    lemma_all_recorded(arts, ledger2, false, arts.len());
    if !ignore_missing {
        assert forall|k: int| 0 <= k < ledger2.len() implies has_version(
            arts,
            #[trigger] ledger2[k].version,
        ) by {
            if k < ledger.len() {
                assert(ledger2[k] == ledger[k]);
            } else {
                assert(ledger2[k] == rows[k - ledger.len()]);
                assert(row_from(arts, rows[k - ledger.len()]));
                let i = choose|i: int| 0 <= i < arts.len() && rows[k - ledger.len()] == #[trigger] row_of(arts[i]);
                assert(arts[i].version == ledger2[k].version);
            }
        }
        assert(all_recorded_present(ledger2, arts));
    }
}

} // verus!
