use sqlx_seeder::bytes::bytes_equal;
use sqlx_seeder::seeder::{
    orphan_versions, plan_run, validate_applied_migrations, AppliedSeeder, MigrationType, Seeder,
    SeederError, Step,
};

fn artifact(version: i64, description: &str, sql: &str) -> Seeder {
    Seeder {
        version,
        description: description.to_string(),
        migration_type: MigrationType::Up,
        sql: sql.to_string(),
        checksum: sql.as_bytes().to_vec(),
    }
}

fn three() -> Vec<Seeder> {
    vec![
        artifact(1, "a", "create table a (id int);"),
        artifact(2, "b", "create table b (id int);"),
        artifact(3, "c", "create table c (id int);"),
    ]
}

fn record(s: &Seeder) -> AppliedSeeder {
    AppliedSeeder { version: s.version, checksum: s.checksum.clone() }
}

/// The ledger after carrying out the `Apply` steps of a plan.
fn carry_out(ledger: &[AppliedSeeder], arts: &[Seeder], steps: &[Step]) -> Vec<AppliedSeeder> {
    let mut out = ledger.to_vec();
    for st in steps {
        if let Step::Apply(i) = st {
            out.push(record(&arts[*i]));
        }
    }
    out
}

#[test]
fn empty_ledger_applies_all_in_order() {
    let arts = three();
    let plan = plan_run(&arts, &[], None, false, false);
    assert_eq!(plan.steps, vec![Step::Apply(0), Step::Apply(1), Step::Apply(2)]);
    assert_eq!(plan.failure, None);
    let ledger = carry_out(&[], &arts, &plan.steps);
    assert_eq!(ledger.len(), 3);
    for (r, a) in ledger.iter().zip(arts.iter()) {
        assert_eq!(r.version, a.version);
        assert_eq!(r.checksum, a.checksum);
    }
}

#[test]
fn rerun_applies_nothing() {
    let arts = three();
    let first = plan_run(&arts, &[], None, false, false);
    let ledger = carry_out(&[], &arts, &first.steps);
    let second = plan_run(&arts, &ledger, None, false, false);
    assert_eq!(
        second.steps,
        vec![Step::AlreadyApplied(0), Step::AlreadyApplied(1), Step::AlreadyApplied(2)]
    );
    assert_eq!(second.failure, None);
}

#[test]
fn edited_artifact_is_a_mismatch() {
    let arts = three();
    let first = plan_run(&arts, &[], None, false, false);
    let ledger = carry_out(&[], &arts, &first.steps);
    let mut edited = three();
    edited[1] = artifact(2, "b", "create table b (id bigint);");
    let plan = plan_run(&edited, &ledger, None, false, false);
    assert_eq!(plan.failure, Some(SeederError::VersionMismatch(2)));
    assert_eq!(plan.steps, vec![Step::AlreadyApplied(0)]);
}

#[test]
fn mismatch_stops_before_later_artifacts() {
    let arts = vec![
        artifact(1, "a", "one"),
        artifact(2, "b", "two"),
        artifact(3, "c", "three"),
    ];
    let ledger = vec![AppliedSeeder { version: 2, checksum: b"other".to_vec() }];
    let plan = plan_run(&arts, &ledger, None, false, false);
    assert_eq!(plan.steps, vec![Step::Apply(0)]);
    assert_eq!(plan.failure, Some(SeederError::VersionMismatch(2)));
}

#[test]
fn missing_artifact_fails_strict_run() {
    let arts = three();
    let mut ledger: Vec<AppliedSeeder> = arts.iter().map(record).collect();
    ledger.push(AppliedSeeder { version: 4, checksum: b"gone".to_vec() });
    let plan = plan_run(&arts, &ledger, None, false, false);
    assert_eq!(plan.failure, Some(SeederError::VersionMissing(4)));
    assert!(plan.steps.is_empty());
    assert!(plan.orphans.is_empty());
}

#[test]
fn missing_artifact_is_an_orphan_when_ignored() {
    let arts = three();
    let mut ledger: Vec<AppliedSeeder> = arts.iter().map(record).collect();
    ledger.push(AppliedSeeder { version: 4, checksum: b"gone".to_vec() });
    let plan = plan_run(&arts, &ledger, None, false, true);
    assert_eq!(plan.failure, None);
    assert_eq!(plan.orphans, vec![4]);
    assert_eq!(
        plan.steps,
        vec![Step::AlreadyApplied(0), Step::AlreadyApplied(1), Step::AlreadyApplied(2)]
    );
}

#[test]
fn dirty_marker_blocks_run() {
    let arts = three();
    let ledger = vec![record(&arts[0])];
    let plan = plan_run(&arts, &ledger, Some(2), false, false);
    assert_eq!(plan.failure, Some(SeederError::Dirty(2)));
    assert!(plan.steps.is_empty());
    assert!(plan.orphans.is_empty());
}

#[test]
fn dirty_marker_comes_before_missing() {
    let arts = three();
    let ledger = vec![AppliedSeeder { version: 9, checksum: vec![1] }];
    let plan = plan_run(&arts, &ledger, Some(9), false, false);
    assert_eq!(plan.failure, Some(SeederError::Dirty(9)));
}

#[test]
fn dry_run_applies_nothing() {
    let arts = three();
    let ledger = vec![record(&arts[0])];
    let plan = plan_run(&arts, &ledger, None, true, false);
    assert_eq!(
        plan.steps,
        vec![Step::AlreadyApplied(0), Step::WouldApply(1), Step::WouldApply(2)]
    );
    assert_eq!(plan.failure, None);
}

#[test]
fn down_artifacts_are_passed_over() {
    let mut arts = three();
    arts[1].migration_type = MigrationType::Down;
    let plan = plan_run(&arts, &[], None, false, false);
    assert_eq!(plan.steps, vec![Step::Apply(0), Step::Apply(2)]);
}

#[test]
fn down_migration_flag() {
    assert!(MigrationType::Down.is_down_migration());
    assert!(!MigrationType::Up.is_down_migration());
}

#[test]
fn validate_names_first_missing() {
    let arts = three();
    let ledger = vec![
        AppliedSeeder { version: 1, checksum: vec![] },
        AppliedSeeder { version: 7, checksum: vec![] },
        AppliedSeeder { version: 5, checksum: vec![] },
    ];
    assert_eq!(
        validate_applied_migrations(&ledger, &arts, false),
        Err(SeederError::VersionMissing(7))
    );
    assert_eq!(validate_applied_migrations(&ledger, &arts, true), Ok(()));
    assert_eq!(validate_applied_migrations(&ledger[..1], &arts, false), Ok(()));
    assert_eq!(validate_applied_migrations(&[], &[], false), Ok(()));
}

#[test]
fn orphan_versions_in_ledger_order() {
    let arts = three();
    let ledger = vec![
        AppliedSeeder { version: 8, checksum: vec![] },
        AppliedSeeder { version: 2, checksum: vec![] },
        AppliedSeeder { version: 6, checksum: vec![] },
    ];
    assert_eq!(orphan_versions(&ledger, &arts), vec![8, 6]);
    assert_eq!(orphan_versions(&ledger[1..2], &arts), Vec::<i64>::new());
}

#[test]
fn later_ledger_row_counts() {
    let arts = vec![artifact(1, "a", "one")];
    let ledger = vec![
        AppliedSeeder { version: 1, checksum: b"old".to_vec() },
        AppliedSeeder { version: 1, checksum: b"one".to_vec() },
    ];
    let plan = plan_run(&arts, &ledger, None, false, false);
    assert_eq!(plan.steps, vec![Step::AlreadyApplied(0)]);
    assert_eq!(plan.failure, None);
}

#[test]
fn bytes_compare() {
    assert!(bytes_equal(&vec![1, 2, 3], &vec![1, 2, 3]));
    assert!(!bytes_equal(&vec![1, 2, 3], &vec![1, 2, 4]));
    assert!(!bytes_equal(&vec![1, 2], &vec![1, 2, 3]));
    assert!(bytes_equal(&vec![], &vec![]));
}
