//! Reconciliation of versioned SQL artifacts against a ledger of applied ones.
//!
//! `seeder` holds the migration workflow: the artifacts, the ledger records,
//! the validation of the ledger and the plan of a run. `seeding` holds the seed
//! workflow: listing seeds with their status and finding orphaned ledger rows.
//! The database, the file system and the terminal are left to the caller.

pub mod bytes;
pub mod lemmas;
pub mod seeder;
pub mod seeding;
