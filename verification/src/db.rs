//! What errors of the database mean, and what is read of stored passages.

use vstd::prelude::*;

verus! {

/// An error of the database.
#[derive(Clone, Copy, Debug, PartialEq, Eq, Structural)]
pub enum DbError {
    /// There is no such row.
    RowNotFound,
    /// The connection failed, is closed, or is not understood.
    Connection,
    /// The server's own error, by its number.
    Server(u16),
    /// Anything else.
    Other,
}

/// The numbers of errors that the server gives where transactions are in each
/// other's way: a lock that was waited for too long, and a deadlock.
pub open spec fn conflict_number(n: u16) -> bool {
    n == 1205 || n == 1213
}

/// The numbers of errors that pass: too many connections, packets and networks
/// that fail, servers that are gone.
pub open spec fn passing_number(n: u16) -> bool {
    conflict_number(n) || n == 1040 || n == 1042 || n == 1152 || n == 1153 || n == 1158 || n == 1159
        || n == 1160 || n == 1161 || n == 2002 || n == 2003 || n == 2006 || n == 2013
}

/// Whether transactions were in each other's way, so that another attempt may
/// succeed.
pub fn transaction_conflict(error: &DbError) -> (r: bool)
    ensures
        r == (match *error {
            DbError::Server(n) => conflict_number(n),
            _ => false,
        }),
{
    match error {
        DbError::Server(n) => *n == 1205 || *n == 1213,
        _ => false,
    }
}

/// The database is not to be had for the time being.
pub open spec fn unavailable(error: DbError) -> bool {
    match error {
        DbError::Connection => true,
        DbError::Server(n) => passing_number(n),
        _ => false,
    }
}

/// Whether the database is not to be had for the time being.
pub fn temporarily_unavailable(error: &DbError) -> (r: bool)
    ensures
        r == unavailable(*error),
{
    match error {
        DbError::Connection => true,
        DbError::Server(number) => {
            let n: u16 = *number;
            n == 1040 || n == 1042 || n == 1152 || n == 1153 || n == 1158 || n == 1159 || n == 1160
                || n == 1161 || n == 1205 || n == 1213 || n == 2002 || n == 2003 || n == 2006 || n
                == 2013
        },
        _ => false,
    }
}

/// A conflict of transactions passes.
pub proof fn conflicts_pass(n: u16)
    requires
        conflict_number(n),
    ensures
        unavailable(DbError::Server(n)),
{
}

/// One indexed passage of a run, without its text.
#[derive(Clone, PartialEq, Eq)]
pub struct ChunkRow {
    pub id: u64,
    pub path: String,
    pub start: u32,
    pub end: u32,
    pub bytes: u64,
}

/// A stored length as a size: one below zero is none.
pub fn stored_bytes(length: i64) -> (r: u64)
    ensures
        r == (if length < 0 {
            0
        } else {
            length as int
        }),
{
    if length < 0 {
        0
    } else {
        length as u64
    }
}

} // verus!
