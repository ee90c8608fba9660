use sqlx_seeder::seeding::{check_for_orphans, name_width, seed_statuses, Seeding};

fn seed(name: &str) -> Seeding {
    Seeding { name: name.to_string(), sql: "-- Add seed script here".to_string() }
}

fn files() -> Vec<Seeding> {
    vec![seed("001_a.sql"), seed("002_b.sql"), seed("003_c.sql")]
}

#[test]
fn orphan_listed_beside_files() {
    let applied = vec![
        "001_a.sql".to_string(),
        "004_d.sql".to_string(),
        "002_b.sql".to_string(),
    ];
    assert_eq!(seed_statuses(&files(), &applied), vec![true, true, false]);
    assert_eq!(check_for_orphans(files(), applied), Some(vec!["004_d.sql".to_string()]));
}

#[test]
fn no_orphans_gives_none() {
    let applied = vec!["003_c.sql".to_string(), "001_a.sql".to_string()];
    assert_eq!(check_for_orphans(files(), applied), None);
    assert_eq!(check_for_orphans(Vec::new(), Vec::new()), None);
}

#[test]
fn orphans_keep_ledger_order() {
    let applied = vec!["z.sql".to_string(), "002_b.sql".to_string(), "a.sql".to_string()];
    assert_eq!(
        check_for_orphans(files(), applied),
        Some(vec!["z.sql".to_string(), "a.sql".to_string()])
    );
}

#[test]
fn statuses_without_ledger() {
    assert_eq!(seed_statuses(&files(), &[]), vec![false, false, false]);
}

#[test]
fn width_is_longest_name() {
    let seeds = vec![seed("a.sql"), seed("2024-01-01_12-00-00_users.sql"), seed("bb.sql")];
    assert_eq!(name_width(&seeds), 29);
    assert_eq!(name_width(&[]), 0);
    assert_eq!(name_width(&[seed("é.sql")]), 5);
}
