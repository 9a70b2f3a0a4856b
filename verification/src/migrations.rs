//! Which schema migrations a database still needs.

use crate::text::{decimal, push_decimal};
use vstd::prelude::*;

verus! {

/// Latest schema migration understood by this library.
pub const LATEST_SCHEMA_VERSION: u32 = 6;

/// Canonical workspace data format created by this library.
pub const WORKSPACE_FORMAT_VERSION: u32 = 1;

/// One ordered migration.
#[derive(Clone, Copy, Debug)]
pub struct Migration {
    pub version: u32,
    pub name: &'static str,
}

/// A schema that cannot be brought up to date.
#[derive(Clone, Copy, Debug, PartialEq, Eq, Structural)]
pub enum MigrationError {
    /// The database reports a schema newer than this library supports.
    NewerSchema { found: u32, supported: u32 },
}

impl MigrationError {
    /// The message shown for the error.
    pub fn message(&self) -> (text: String)
        ensures
            match *self {
                MigrationError::NewerSchema { found, supported } => text@
                    == "database schema version "@ + decimal(found as nat)
                    + " is newer than supported version "@ + decimal(supported as nat),
            },
    {
        let mut text = "database schema version ".to_owned();
        match self {
            MigrationError::NewerSchema { found, supported } => {
                push_decimal(&mut text, *found as u64);
                text.push_str(" is newer than supported version ");
                push_decimal(&mut text, *supported as u64);
            },
        }
        text
    }
}

/// The embedded migrations, in order.
pub fn migrations() -> (list: Vec<Migration>)
    ensures
        list@.len() == LATEST_SCHEMA_VERSION,
        forall|i: int| 0 <= i < list@.len() ==> (#[trigger] list@[i]).version == i + 1,
        list@[0].name@ == "workspace_format"@,
        list@[1].name@ == "canonical_nodes"@,
        list@[2].name@ == "derived_and_history"@,
        list@[3].name@ == "section_fts"@,
        list@[4].name@ == "mutation_receipts"@,
        list@[5].name@ == "workspace_revision"@,
{
    let mut list: Vec<Migration> = Vec::new();
    list.push(Migration { version: 1, name: "workspace_format" });
    list.push(Migration { version: 2, name: "canonical_nodes" });
    list.push(Migration { version: 3, name: "derived_and_history" });
    list.push(Migration { version: 4, name: "section_fts" });
    list.push(Migration { version: 5, name: "mutation_receipts" });
    list.push(Migration { version: 6, name: "workspace_revision" });
    list
}

/// The version of the last migration, or zero.
pub open spec fn latest_of(list: Seq<Migration>) -> u32 {
    if list.len() == 0 {
        0
    } else {
        list.last().version
    }
}

/// The migrations newer than the installed schema, in order.
pub open spec fn newer(list: Seq<Migration>, current: u32, n: int) -> Seq<Migration>
    decreases n,
{
    if n <= 0 {
        Seq::empty()
    } else if list[n - 1].version > current {
        newer(list, current, n - 1).push(list[n - 1])
    } else {
        newer(list, current, n - 1)
    }
}

/// The migrations that a database with the installed schema still needs.
pub fn pending_migrations(list: &Vec<Migration>, installed: i64) -> (result: Result<
    Vec<Migration>,
    MigrationError,
>)
    ensures
        if installed < 0 || installed > u32::MAX {
            result == Err::<Vec<Migration>, MigrationError>(
                MigrationError::NewerSchema {
                    found: u32::MAX,
                    supported: LATEST_SCHEMA_VERSION,
                },
            )
        } else if installed > latest_of(list@) {
            result == Err::<Vec<Migration>, MigrationError>(
                MigrationError::NewerSchema {
                    found: installed as u32,
                    supported: latest_of(list@),
                },
            )
        } else {
            result is Ok && result->Ok_0@ == newer(list@, installed as u32, list@.len() as int)
        },
{
    if installed < 0 || installed > 0xffff_ffff {
        return Err(
            MigrationError::NewerSchema { found: u32::MAX, supported: LATEST_SCHEMA_VERSION },
        );
    }
    let current: u32 = installed as u32;
    let latest: u32 = if list.len() == 0 {
        0
    } else {
        list[list.len() - 1].version
    };
    if current > latest {
        return Err(MigrationError::NewerSchema { found: current, supported: latest });
    }
    let mut pending: Vec<Migration> = Vec::new();
    let mut i: usize = 0;
    while i < list.len()
        invariant
            i <= list.len(),
            pending@ == newer(list@, current, i as int),
        decreases list.len() - i,
    {
        if list[i].version > current {
            pending.push(list[i]);
        }
        i = i + 1;
    }
    Ok(pending)
}

} // verus!
