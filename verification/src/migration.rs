//! The database schema: the statements that set SQLite up and create the
//! two tables with their timestamp indexes, in the order they run.
use vstd::prelude::*;

verus! {

/// The statements that prepare the database, in order: write-ahead logging,
/// a busy timeout of five seconds, then each table followed by the index on
/// its timestamp. Each is idempotent, so they run at every start.
pub fn schema_statements() -> (r: Vec<&'static str>)
    ensures
        r@.len() == 6,
        r@[0]@ == "PRAGMA journal_mode=WAL"@,
        r@[1]@ == "PRAGMA busy_timeout=5000"@,
        r@[2]@ == "CREATE TABLE IF NOT EXISTS feeding (
            id INTEGER PRIMARY KEY AUTOINCREMENT,
            amount_half_scoops INTEGER NOT NULL CHECK(amount_half_scoops IN (1, 2)),
            fed_at TEXT NOT NULL,
            edited INTEGER NOT NULL DEFAULT 0
        )"@,
        r@[3]@ == "CREATE INDEX IF NOT EXISTS idx_feeding_fed_at ON feeding (fed_at)"@,
        r@[4]@ == "CREATE TABLE IF NOT EXISTS treat (
            id INTEGER PRIMARY KEY AUTOINCREMENT,
            name TEXT NOT NULL,
            given_at TEXT NOT NULL,
            edited INTEGER NOT NULL DEFAULT 0
        )"@,
        r@[5]@ == "CREATE INDEX IF NOT EXISTS idx_treat_given_at ON treat (given_at)"@,
{
    let mut r: Vec<&'static str> = Vec::new();
    r.push("PRAGMA journal_mode=WAL");
    r.push("PRAGMA busy_timeout=5000");
    r.push(
        "CREATE TABLE IF NOT EXISTS feeding (
            id INTEGER PRIMARY KEY AUTOINCREMENT,
            amount_half_scoops INTEGER NOT NULL CHECK(amount_half_scoops IN (1, 2)),
            fed_at TEXT NOT NULL,
            edited INTEGER NOT NULL DEFAULT 0
        )",
    );
    r.push("CREATE INDEX IF NOT EXISTS idx_feeding_fed_at ON feeding (fed_at)");
    r.push(
        "CREATE TABLE IF NOT EXISTS treat (
            id INTEGER PRIMARY KEY AUTOINCREMENT,
            name TEXT NOT NULL,
            given_at TEXT NOT NULL,
            edited INTEGER NOT NULL DEFAULT 0
        )",
    );
    r.push("CREATE INDEX IF NOT EXISTS idx_treat_given_at ON treat (given_at)");
    r
}

} // verus!
