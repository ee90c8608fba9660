use vstd::prelude::*;
use crate::bytes::bytes_equal;

verus! {

/// Direction of an artifact. Down artifacts are never applied by a run.
#[derive(Clone, Copy, Debug, PartialEq, Eq, Structural)]
pub enum MigrationType {
    Up,
    Down,
}

impl MigrationType {
    pub fn is_down_migration(&self) -> (r: bool)
        ensures
            r == (*self == MigrationType::Down),
    {
        match self {
            MigrationType::Up => false,
            MigrationType::Down => true,
        }
    }
}

/// One versioned SQL artifact, as loaded from its source.
#[derive(Clone, Debug)]
pub struct Seeder {
    pub version: i64,
    pub description: String,
    pub migration_type: MigrationType,
    pub sql: String,
    pub checksum: Vec<u8>,
}

/// One row of the ledger of applied artifacts.
#[derive(Clone, Debug)]
pub struct AppliedSeeder {
    pub version: i64,
    pub checksum: Vec<u8>,
}

/// Why a run stops.
#[derive(Clone, Debug, PartialEq, Eq)]
pub enum SeederError {
    /// Executing the artifact of this version failed, with the cause.
    Execute(i64, String),
    /// The artifacts could not be loaded, with the cause.
    Source(String),
    /// The ledger records this version, but no artifact has it.
    VersionMissing(i64),
    /// The artifact of this version changed since it was applied.
    VersionMismatch(i64),
    InvalidMixReversibleAndSimple,
    /// A previous run left this version partially applied.
    Dirty(i64),
}

/// What reconciliation reads of an artifact.
pub struct ArtifactView {
    pub version: i64,
    pub down: bool,
    pub checksum: Seq<u8>,
}

/// What reconciliation reads of a ledger row.
pub struct RecordView {
    pub version: i64,
    pub checksum: Seq<u8>,
}

impl View for Seeder {
    type V = ArtifactView;

    open spec fn view(&self) -> ArtifactView {
        ArtifactView {
            version: self.version,
            down: self.migration_type == MigrationType::Down,
            checksum: self.checksum@,
        }
    }
}

impl View for AppliedSeeder {
    type V = RecordView;

    open spec fn view(&self) -> RecordView {
        RecordView { version: self.version, checksum: self.checksum@ }
    }
}

pub open spec fn artifacts_view(s: Seq<Seeder>) -> Seq<ArtifactView> {
    s.map_values(|m: Seeder| m@)
}

pub open spec fn ledger_view(s: Seq<AppliedSeeder>) -> Seq<RecordView> {
    s.map_values(|a: AppliedSeeder| a@)
}

/// Some artifact has version `v`.
pub open spec fn has_version(arts: Seq<ArtifactView>, v: i64) -> bool {
    exists|j: int| 0 <= j < arts.len() && arts[j].version == v
}

/// Every ledger row has an artifact of its version.
pub open spec fn all_recorded_present(ledger: Seq<RecordView>, arts: Seq<ArtifactView>) -> bool {
    forall|k: int| 0 <= k < ledger.len() ==> has_version(arts, #[trigger] ledger[k].version)
}

/// Row `i` is the first ledger row without an artifact of its version.
pub open spec fn first_missing_at(ledger: Seq<RecordView>, arts: Seq<ArtifactView>, i: int) -> bool {
    &&& 0 <= i < ledger.len()
    &&& !has_version(arts, ledger[i].version)
    &&& forall|k: int| 0 <= k < i ==> has_version(arts, #[trigger] ledger[k].version)
}

/// The version of the first ledger row without an artifact.
pub open spec fn first_missing(ledger: Seq<RecordView>, arts: Seq<ArtifactView>) -> i64 {
    ledger[choose|i: int| first_missing_at(ledger, arts, i)].version
}

/// The versions of the first `n` ledger rows that have no artifact, in ledger order.
pub open spec fn orphans_upto(ledger: Seq<RecordView>, arts: Seq<ArtifactView>, n: nat) -> Seq<i64>
    decreases n,
{
    if n == 0 {
        Seq::empty()
    } else {
        let prev = orphans_upto(ledger, arts, (n - 1) as nat);
        if has_version(arts, ledger[n - 1].version) {
            prev
        } else {
            prev.push(ledger[n - 1].version)
        }
    }
}

/// The versions of the ledger rows that have no artifact, in ledger order.
pub open spec fn orphans(ledger: Seq<RecordView>, arts: Seq<ArtifactView>) -> Seq<i64> {
    orphans_upto(ledger, arts, ledger.len())
}

/// The checksum that the ledger holds for version `v`; of several rows, the last counts.
pub open spec fn recorded_checksum(ledger: Seq<RecordView>, v: i64) -> Option<Seq<u8>>
    decreases ledger.len(),
{
    if ledger.len() == 0 {
        None
    } else if ledger.last().version == v {
        Some(ledger.last().checksum)
    } else {
        recorded_checksum(ledger.drop_last(), v)
    }
}

/// One decision of a run, on the artifact at an index.
#[derive(Clone, Copy, Debug, PartialEq, Eq, Structural)]
pub enum Step {
    /// Execute the artifact and record it.
    Apply(usize),
    /// The artifact would be applied; nothing is done on a dry run.
    WouldApply(usize),
    /// The ledger already records the artifact with its checksum.
    AlreadyApplied(usize),
}

impl Step {
    pub open spec fn index(self) -> usize {
        match self {
            Step::Apply(i) => i,
            Step::WouldApply(i) => i,
            Step::AlreadyApplied(i) => i,
        }
    }
}

/// The steps over the first `n` artifacts, and the mismatch that stopped them, if any.
pub open spec fn steps_upto(
    arts: Seq<ArtifactView>,
    ledger: Seq<RecordView>,
    dry_run: bool,
    n: nat,
) -> (Seq<Step>, Option<SeederError>)
    decreases n,
{
    if n == 0 {
        (Seq::empty(), None)
    } else {
        let prev = steps_upto(arts, ledger, dry_run, (n - 1) as nat);
        let i = n - 1;
        if prev.1.is_some() || arts[i].down {
            prev
        } else {
            match recorded_checksum(ledger, arts[i].version) {
                Some(c) => if c == arts[i].checksum {
                    (prev.0.push(Step::AlreadyApplied(i as usize)), None)
                } else {
                    (prev.0, Some(SeederError::VersionMismatch(arts[i].version)))
                },
                None => if dry_run {
                    (prev.0.push(Step::WouldApply(i as usize)), None)
                } else {
                    (prev.0.push(Step::Apply(i as usize)), None)
                },
            }
        }
    }
}

/// The ledger rows that the `Apply` steps among `steps` write, in order.
pub open spec fn applied_records(arts: Seq<ArtifactView>, steps: Seq<Step>) -> Seq<RecordView>
    decreases steps.len(),
{
    if steps.len() == 0 {
        Seq::empty()
    } else {
        let prev = applied_records(arts, steps.drop_last());
        match steps.last() {
            Step::Apply(i) => prev.push(row_of(arts[i as int])),
            _ => prev,
        }
    }
}

/// The ledger row that applying an artifact writes.
pub open spec fn row_of(a: ArtifactView) -> RecordView {
    RecordView { version: a.version, checksum: a.checksum }
}

/// No two artifacts share a version.
pub open spec fn versions_unique(arts: Seq<ArtifactView>) -> bool {
    forall|i: int, j: int|
        0 <= i < arts.len() && 0 <= j < arts.len() && i != j ==> arts[i].version != arts[j].version
}

/// Versions rise strictly along the sequence.
pub open spec fn versions_ascending(arts: Seq<ArtifactView>) -> bool {
    forall|i: int, j: int| 0 <= i < j < arts.len() ==> arts[i].version < arts[j].version
}

/// The check that stops a run before any artifact is looked at.
pub open spec fn early_failure(
    arts: Seq<ArtifactView>,
    ledger: Seq<RecordView>,
    dirty: Option<i64>,
    ignore_missing: bool,
) -> Option<SeederError> {
    match dirty {
        Some(v) => Some(SeederError::Dirty(v)),
        None => if !ignore_missing && !all_recorded_present(ledger, arts) {
            Some(SeederError::VersionMissing(first_missing(ledger, arts)))
        } else {
            None
        },
    }
}

/// The steps of a run.
pub open spec fn planned_steps(
    arts: Seq<ArtifactView>,
    ledger: Seq<RecordView>,
    dirty: Option<i64>,
    dry_run: bool,
    ignore_missing: bool,
) -> Seq<Step> {
    if early_failure(arts, ledger, dirty, ignore_missing).is_some() {
        Seq::empty()
    } else {
        steps_upto(arts, ledger, dry_run, arts.len()).0
    }
}

/// The error that ends a run, if any.
pub open spec fn planned_failure(
    arts: Seq<ArtifactView>,
    ledger: Seq<RecordView>,
    dirty: Option<i64>,
    dry_run: bool,
    ignore_missing: bool,
) -> Option<SeederError> {
    if early_failure(arts, ledger, dirty, ignore_missing).is_some() {
        early_failure(arts, ledger, dirty, ignore_missing)
    } else {
        steps_upto(arts, ledger, dry_run, arts.len()).1
    }
}

/// The orphaned ledger versions that a run reports.
pub open spec fn planned_orphans(
    arts: Seq<ArtifactView>,
    ledger: Seq<RecordView>,
    dirty: Option<i64>,
    ignore_missing: bool,
) -> Seq<i64> {
    if early_failure(arts, ledger, dirty, ignore_missing).is_some() {
        Seq::empty()
    } else {
        orphans(ledger, arts)
    }
}

/// The decisions of one run: the steps to carry out in order, then the error
/// that ends the run, if any, and the orphaned ledger versions.
#[derive(Clone, Debug)]
pub struct RunPlan {
    pub steps: Vec<Step>,
    pub failure: Option<SeederError>,
    pub orphans: Vec<i64>,
}

pub proof fn lemma_first_missing(ledger: Seq<RecordView>, arts: Seq<ArtifactView>, i: int)
    requires
        first_missing_at(ledger, arts, i),
    ensures
        first_missing(ledger, arts) == ledger[i].version,
{
    let j = choose|j: int| first_missing_at(ledger, arts, j);
    assert(first_missing_at(ledger, arts, j));
    if j < i {
        assert(has_version(arts, ledger[j].version));
    } else if i < j {
        assert(has_version(arts, ledger[i].version));
    }
}

proof fn lemma_recorded_take(ledger: Seq<RecordView>, v: i64, i: int)
    requires
        0 <= i < ledger.len(),
    ensures
        recorded_checksum(ledger.take(i + 1), v) == if ledger[i].version == v {
            Some(ledger[i].checksum)
        } else {
            recorded_checksum(ledger.take(i), v)
        },
{
    assert(ledger.take(i + 1).drop_last() =~= ledger.take(i));
}

/// Whether some artifact has version `v`.
fn contains_version(seeders: &[Seeder], v: i64) -> (r: bool)
    ensures
        r == has_version(artifacts_view(seeders@), v),
{
    let ghost arts = artifacts_view(seeders@);
    let mut i: usize = 0;
    while i < seeders.len()
        invariant
            0 <= i <= seeders@.len(),
            arts == artifacts_view(seeders@),
            forall|k: int| 0 <= k < i ==> arts[k].version != v,
        decreases seeders@.len() - i,
    {
        if seeders[i].version == v {
            assert(arts[i as int].version == v);
            return true;
        }
        i += 1;
    }
    false
}

/// The index of the ledger row whose checksum counts for version `v`.
fn find_record(applied: &[AppliedSeeder], v: i64) -> (r: Option<usize>)
    ensures
        match r {
            Some(j) => j < applied@.len() && recorded_checksum(ledger_view(applied@), v) == Some(
                applied@[j as int].checksum@,
            ),
            None => recorded_checksum(ledger_view(applied@), v) is None,
        },
{
    let ghost ledger = ledger_view(applied@);
    let mut i: usize = applied.len();
    assert(ledger.take(ledger.len() as int) =~= ledger);
    while i > 0
        invariant
            0 <= i <= applied@.len(),
            ledger == ledger_view(applied@),
            recorded_checksum(ledger, v) == recorded_checksum(ledger.take(i as int), v),
        decreases i,
    {
        proof {
            lemma_recorded_take(ledger, v, i - 1);
        }
        if applied[i - 1].version == v {
            return Some(i - 1);
        }
        i -= 1;
    }
    assert(ledger.take(0) =~= Seq::<RecordView>::empty());
    None
}

/// Checks that every ledger row has an artifact of its version, unless missing
/// artifacts are to be ignored; the error names the first row without one.
pub fn validate_applied_migrations(
    applied_migrations: &[AppliedSeeder],
    migrator: &[Seeder],
    ignore_missing: bool,
) -> (r: Result<(), SeederError>)
    ensures
        ignore_missing ==> (r is Ok),
        !ignore_missing ==> ((r is Ok) <==> all_recorded_present(
            ledger_view(applied_migrations@),
            artifacts_view(migrator@),
        )),
        (r is Err) ==> r == Err::<(), SeederError>(
            SeederError::VersionMissing(
                first_missing(ledger_view(applied_migrations@), artifacts_view(migrator@)),
            ),
        ),
{
    if ignore_missing {
        return Ok(());
    }
    let ghost ledger = ledger_view(applied_migrations@);
    let ghost arts = artifacts_view(migrator@);
    let mut i: usize = 0;
    while i < applied_migrations.len()
        invariant
            !ignore_missing,
            0 <= i <= applied_migrations@.len(),
            ledger == ledger_view(applied_migrations@),
            arts == artifacts_view(migrator@),
            forall|k: int| 0 <= k < i ==> has_version(arts, #[trigger] ledger[k].version),
        decreases applied_migrations@.len() - i,
    {
        if !contains_version(migrator, applied_migrations[i].version) {
            proof {
                assert(first_missing_at(ledger, arts, i as int));
                lemma_first_missing(ledger, arts, i as int);
            }
            return Err(SeederError::VersionMissing(applied_migrations[i].version));
        }
        i += 1;
    }
    Ok(())
}

/// The versions of the ledger rows that have no artifact, in ledger order.
pub fn orphan_versions(applied: &[AppliedSeeder], seeders: &[Seeder]) -> (r: Vec<i64>)
    ensures
        r@ == orphans(ledger_view(applied@), artifacts_view(seeders@)),
{
    let ghost ledger = ledger_view(applied@);
    let ghost arts = artifacts_view(seeders@);
    let mut out: Vec<i64> = Vec::new();
    let mut i: usize = 0;
    while i < applied.len()
        invariant
            0 <= i <= applied@.len(),
            ledger == ledger_view(applied@),
            arts == artifacts_view(seeders@),
            out@ == orphans_upto(ledger, arts, i as nat),
        decreases applied@.len() - i,
    {
        if !contains_version(seeders, applied[i].version) {
            out.push(applied[i].version);
        }
        i += 1;
    }
    out
}

pub proof fn lemma_failure_sticks(
    arts: Seq<ArtifactView>,
    ledger: Seq<RecordView>,
    dry_run: bool,
    n: nat,
    m: nat,
)
    requires
        n <= m,
        steps_upto(arts, ledger, dry_run, n).1.is_some(),
    ensures
        steps_upto(arts, ledger, dry_run, m) == steps_upto(arts, ledger, dry_run, n),
    decreases m - n,
{
    if n < m {
        lemma_failure_sticks(arts, ledger, dry_run, n, (m - 1) as nat);
    }
}

/// Decides a run: the dirty marker and the validation of the ledger first,
/// then, artifact by artifact in the given order, whether it is applied,
/// skipped as already applied, or stops the run as modified. Down artifacts
/// are passed over. On a dry run no step applies anything.
pub fn plan_run(
    seeders: &[Seeder],
    applied: &[AppliedSeeder],
    dirty: Option<i64>,
    dry_run: bool,
    ignore_missing: bool,
) -> (r: RunPlan)
    ensures
        r.steps@ == planned_steps(
            artifacts_view(seeders@),
            ledger_view(applied@),
            dirty,
            dry_run,
            ignore_missing,
        ),
        r.failure == planned_failure(
            artifacts_view(seeders@),
            ledger_view(applied@),
            dirty,
            dry_run,
            ignore_missing,
        ),
        r.orphans@ == planned_orphans(
            artifacts_view(seeders@),
            ledger_view(applied@),
            dirty,
            ignore_missing,
        ),
{
    let ghost arts = artifacts_view(seeders@);
    let ghost ledger = ledger_view(applied@);
    if let Some(v) = dirty {
        return RunPlan { steps: Vec::new(), failure: Some(SeederError::Dirty(v)), orphans: Vec::new() };
    }
    if let Err(e) = validate_applied_migrations(applied, seeders, ignore_missing) {
        return RunPlan { steps: Vec::new(), failure: Some(e), orphans: Vec::new() };
    }
    let found = orphan_versions(applied, seeders);
    let mut steps: Vec<Step> = Vec::new();
    let mut i: usize = 0;
    while i < seeders.len()
        invariant
            0 <= i <= seeders@.len(),
            arts == artifacts_view(seeders@),
            ledger == ledger_view(applied@),
            early_failure(arts, ledger, dirty, ignore_missing).is_none(),
            found@ == orphans(ledger, arts),
            steps_upto(arts, ledger, dry_run, i as nat) == (steps@, None::<SeederError>),
        decreases seeders@.len() - i,
    {
        let m = &seeders[i];
        if !m.migration_type.is_down_migration() {
            match find_record(applied, m.version) {
                Some(j) => {
                    if !bytes_equal(&m.checksum, &applied[j].checksum) {
                        let failure = Some(SeederError::VersionMismatch(m.version));
                        proof {
                            assert(steps_upto(arts, ledger, dry_run, (i + 1) as nat) == (
                                steps@,
                                failure,
                            ));
                            lemma_failure_sticks(arts, ledger, dry_run, (i + 1) as nat, arts.len());
                        }
                        return RunPlan { steps, failure, orphans: found };
                    }
                    steps.push(Step::AlreadyApplied(i));
                },
                None => {
                    if dry_run {
                        steps.push(Step::WouldApply(i));
                    } else {
                        steps.push(Step::Apply(i));
                    }
                },
            }
        }
        i += 1;
    }
    RunPlan { steps, failure: None, orphans: found }
}

} // verus!
